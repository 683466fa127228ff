//! Canonical percent-encoded names.
//!
//! A [`ClientString`] carries a name in one canonical form: the UTF-8
//! bytes of its percent-encoded spelling. A fixed reserved set (the
//! control bytes plus space, `"`, `<`, `>`, backtick and `&`) is written
//! as `%XX` escapes; the escape character `%` itself is escaped as well,
//! so that encoding is invertible. Equality is on the encoded form.

use vstd::prelude::*;
use vstd::slice::slice_to_vec;
use vstd::utf8::*;

verus! {

/// True for the bytes that the encoder replaces by a `%XX` escape:
/// the ASCII control bytes, space, `"`, `<`, `>`, backtick, `&`,
/// and the escape character `%` itself.
pub open spec fn is_escaped_byte(b: u8) -> bool {
    b < 0x20 || b == 0x7f || b == 0x20 || b == 0x22 || b == 0x3c || b == 0x3e || b == 0x60
        || b == 0x26 || b == 0x25
}

/// True for the reserved bytes proper: the escaped set without `%`.
/// The encoded form is guaranteed to contain none of these.
pub open spec fn is_reserved_byte(b: u8) -> bool {
    is_escaped_byte(b) && b != 0x25
}

/// The upper-case hex digit for a value below 16.
pub open spec fn hex_digit(v: u8) -> u8
    recommends
        v < 16,
{
    if v < 10 {
        (0x30 + v) as u8
    } else {
        (0x41 + (v - 10)) as u8
    }
}

/// True for the ASCII bytes the decoder accepts inside a `%XX` escape.
pub open spec fn is_hex_byte(b: u8) -> bool {
    (0x30 <= b && b <= 0x39) || (0x41 <= b && b <= 0x46) || (0x61 <= b && b <= 0x66)
}

/// The value of an accepted hex digit byte.
pub open spec fn hex_value(b: u8) -> u8
    recommends
        is_hex_byte(b),
{
    if 0x30 <= b && b <= 0x39 {
        (b - 0x30) as u8
    } else if 0x41 <= b && b <= 0x46 {
        (b - 0x41 + 10) as u8
    } else {
        (b - 0x61 + 10) as u8
    }
}

/// The encoding of one byte: itself, or a three-byte `%XX` escape.
pub open spec fn encode_one(b: u8) -> Seq<u8> {
    if is_escaped_byte(b) {
        seq![0x25u8, hex_digit(b / 16), hex_digit(b % 16)]
    } else {
        seq![b]
    }
}

/// The percent-encoding of a byte string.
pub open spec fn encode_bytes(s: Seq<u8>) -> Seq<u8>
    decreases s.len(),
{
    if s.len() == 0 {
        Seq::<u8>::empty()
    } else {
        encode_one(s[0]) + encode_bytes(s.drop_first())
    }
}

/// The percent-decoding of a byte string: every `%XX` escape is replaced
/// by its byte; a `%` not followed by two hex digits is malformed.
pub open spec fn decode_bytes(s: Seq<u8>) -> Option<Seq<u8>>
    decreases s.len(),
{
    if s.len() == 0 {
        Some(Seq::<u8>::empty())
    } else if s[0] == 0x25 {
        if s.len() >= 3 && is_hex_byte(s[1]) && is_hex_byte(s[2]) {
            match decode_bytes(s.skip(3)) {
                Some(rest) => Some(seq![(hex_value(s[1]) * 16 + hex_value(s[2])) as u8] + rest),
                None => None,
            }
        } else {
            None
        }
    } else {
        match decode_bytes(s.skip(1)) {
            Some(rest) => Some(seq![s[0]] + rest),
            None => None,
        }
    }
}

/// The canonical encoded form of a client string: percent-encoding
/// applied to its UTF-8 bytes.
pub open spec fn encode_name(s: Seq<char>) -> Seq<u8> {
    encode_bytes(encode_utf8(s))
}

/// The decoding of an encoded form back to characters: percent-decoding
/// followed by UTF-8 decoding; either step can fail.
pub open spec fn decode_name(e: Seq<u8>) -> Option<Seq<char>> {
    match decode_bytes(e) {
        None => None,
        Some(b) => if valid_utf8(b) {
            Some(decode_utf8(b))
        } else {
            None
        },
    }
}

/// Encoding distributes over concatenation.
pub proof fn lemma_encode_bytes_concat(a: Seq<u8>, b: Seq<u8>)
    ensures
        encode_bytes(a + b) == encode_bytes(a) + encode_bytes(b),
    decreases a.len(),
{
    if a.len() == 0 {
        assert(a + b =~= b);
        assert(encode_bytes(a) + encode_bytes(b) =~= encode_bytes(b));
    } else {
        assert((a + b).drop_first() =~= a.drop_first() + b);
        lemma_encode_bytes_concat(a.drop_first(), b);
        assert(encode_bytes(a + b) =~= encode_bytes(a) + encode_bytes(b));
    }
}

pub proof fn lemma_hex_digit_value(v: u8)
    requires
        v < 16,
    ensures
        is_hex_byte(hex_digit(v)),
        hex_value(hex_digit(v)) == v,
        !is_escaped_byte(hex_digit(v)),
{
}

/// Decoding inverts encoding, byte string by byte string.
pub proof fn lemma_decode_encode_bytes(s: Seq<u8>)
    ensures
        decode_bytes(encode_bytes(s)) == Some(s),
    decreases s.len(),
{
    if s.len() == 0 {
    } else {
        let e = encode_bytes(s);
        let rest = s.drop_first();
        lemma_decode_encode_bytes(rest);
        if is_escaped_byte(s[0]) {
            lemma_hex_digit_value(s[0] / 16);
            lemma_hex_digit_value(s[0] % 16);
            assert(e =~= seq![0x25u8, hex_digit(s[0] / 16), hex_digit(s[0] % 16)] + encode_bytes(
                rest,
            ));
            assert(e.skip(3) =~= encode_bytes(rest));
            assert(hex_value(e[1]) * 16 + hex_value(e[2]) == s[0]);
            assert(seq![s[0]] + rest =~= s);
        } else {
            assert(e =~= seq![s[0]] + encode_bytes(rest));
            assert(e.skip(1) =~= encode_bytes(rest));
            assert(s[0] != 0x25);
            assert(seq![s[0]] + rest =~= s);
        }
    }
}

/// The encoded form contains no reserved byte.
pub proof fn lemma_encode_no_reserved(s: Seq<u8>)
    ensures
        forall|i: int|
            0 <= i < encode_bytes(s).len() ==> !is_reserved_byte(#[trigger] encode_bytes(s)[i]),
    decreases s.len(),
{
    if s.len() == 0 {
    } else {
        lemma_encode_no_reserved(s.drop_first());
        if is_escaped_byte(s[0]) {
            lemma_hex_digit_value(s[0] / 16);
            lemma_hex_digit_value(s[0] % 16);
        }
        assert forall|i: int| 0 <= i < encode_bytes(s).len() implies !is_reserved_byte(
            #[trigger] encode_bytes(s)[i],
        ) by {
            let head = encode_one(s[0]);
            if i >= head.len() {
                assert(encode_bytes(s)[i] == encode_bytes(s.drop_first())[i - head.len()]);
            }
        }
    }
}

/// A sequence whose bytes are untouched by the encoder encodes to itself.
proof fn lemma_encode_identity(s: Seq<u8>)
    requires
        forall|i: int| 0 <= i < s.len() ==> !is_escaped_byte(#[trigger] s[i]),
    ensures
        encode_bytes(s) == s,
    decreases s.len(),
{
    if s.len() == 0 {
        assert(encode_bytes(s) =~= s);
    } else {
        lemma_encode_identity(s.drop_first());
        assert(encode_bytes(s) =~= s);
    }
}

/// A sequence of bytes below 0x80 is valid UTF-8.
proof fn lemma_ascii_valid_utf8(s: Seq<u8>)
    requires
        forall|i: int| 0 <= i < s.len() ==> #[trigger] s[i] < 0x80,
    ensures
        valid_utf8(s),
    decreases s.len(),
{
    if s.len() == 0 {
    } else {
        let b0 = s[0];
        assert(is_leading_byte_width_1(b0));
        assert(decode_first_codepoint(s) == leading_bits_width_1(b0));
        assert(b0 & 0x7f == b0) by (bit_vector)
            requires
                b0 < 0x80,
        ;
        assert(length_of_first_scalar(s) == 1);
        assert(pop_first_scalar(s) =~= s.drop_first());
        lemma_ascii_valid_utf8(s.drop_first());
    }
}

/// The first scalar of a valid sequence stands alone as a valid
/// sequence, and a multi-byte first scalar contains no escaped byte.
proof fn lemma_first_scalar_head(s: Seq<u8>)
    requires
        valid_first_scalar(s),
    ensures
        1 <= length_of_first_scalar(s) <= 4,
        length_of_first_scalar(s) <= s.len(),
        valid_first_scalar(take_first_scalar(s)),
        length_of_first_scalar(take_first_scalar(s)) == length_of_first_scalar(s),
        length_of_first_scalar(s) > 1 ==> forall|i: int|
            0 <= i < length_of_first_scalar(s) ==> !is_escaped_byte(#[trigger] s[i]),
{
    let b0 = s[0];
    if is_leading_byte_width_1(b0) {
        assert(length_of_first_scalar(s) == 1);
        let head = take_first_scalar(s);
        assert(head.len() == 1 && head[0] == b0);
    } else if is_leading_byte_width_2(b0) {
        assert(s.len() >= 2 && is_continuation_byte(s[1]));
        let head = take_first_scalar(s);
        assert(head.len() == 2 && head[0] == b0 && head[1] == s[1]);
        assert(decode_first_codepoint(head) == decode_first_codepoint(s));
    } else if is_leading_byte_width_3(b0) {
        assert(s.len() >= 3 && is_continuation_byte(s[1]) && is_continuation_byte(s[2]));
        let head = take_first_scalar(s);
        assert(head.len() == 3 && head[0] == b0 && head[1] == s[1] && head[2] == s[2]);
        assert(decode_first_codepoint(head) == decode_first_codepoint(s));
    } else {
        assert(is_leading_byte_width_4(b0));
        assert(s.len() >= 4 && is_continuation_byte(s[1]) && is_continuation_byte(s[2])
            && is_continuation_byte(s[3]));
        let head = take_first_scalar(s);
        assert(head.len() == 4 && head[0] == b0 && head[1] == s[1] && head[2] == s[2] && head[3]
            == s[3]);
        assert(decode_first_codepoint(head) == decode_first_codepoint(s));
    }
}

/// Percent-encoding preserves UTF-8 validity: escapes replace only
/// single-byte scalars, and multi-byte scalars pass through untouched.
pub proof fn lemma_encode_preserves_valid_utf8(s: Seq<u8>)
    requires
        valid_utf8(s),
    ensures
        valid_utf8(encode_bytes(s)),
    decreases s.len(),
{
    broadcast use valid_utf8_concat;

    if s.len() == 0 {
    } else {
        lemma_first_scalar_head(s);
        let k = length_of_first_scalar(s);
        let head = take_first_scalar(s);
        let tail = pop_first_scalar(s);
        assert(s =~= head + tail);
        lemma_encode_bytes_concat(head, tail);
        lemma_encode_preserves_valid_utf8(tail);
        if k == 1 {
            assert(head =~= seq![s[0]]);
            assert(encode_bytes(head) =~= encode_one(s[0]) + encode_bytes(
                Seq::<u8>::empty(),
            )) by {
                assert(head.drop_first() =~= Seq::<u8>::empty());
            }
            assert(encode_bytes(head) =~= encode_one(s[0]));
            assert(s[0] < 0x80);
            if is_escaped_byte(s[0]) {
                lemma_hex_digit_value(s[0] / 16);
                lemma_hex_digit_value(s[0] % 16);
            }
            assert(forall|i: int|
                0 <= i < encode_bytes(head).len() ==> #[trigger] encode_bytes(head)[i] < 0x80);
            lemma_ascii_valid_utf8(encode_bytes(head));
        } else {
            assert(forall|i: int| 0 <= i < head.len() ==> !is_escaped_byte(#[trigger] head[i]));
            lemma_encode_identity(head);
            assert(valid_first_scalar(head));
            assert(pop_first_scalar(head) =~= Seq::<u8>::empty());
            assert(valid_utf8(Seq::<u8>::empty()));
            assert(valid_utf8(pop_first_scalar(head)));
            assert(valid_utf8(head));
        }
        assert(valid_utf8(encode_bytes(head) + encode_bytes(tail)));
    }
}

/// For every character string, decoding the encoded form gives the
/// string back, and the encoded form contains no reserved byte.
pub proof fn lemma_name_round_trip(s: Seq<char>)
    ensures
        decode_name(encode_name(s)) == Some(s),
        forall|i: int|
            0 <= i < encode_name(s).len() ==> !is_reserved_byte(#[trigger] encode_name(s)[i]),
{
    broadcast use encode_utf8_valid_utf8, encode_utf8_decode_utf8;

    lemma_decode_encode_bytes(encode_utf8(s));
    lemma_encode_no_reserved(encode_utf8(s));
}

fn is_escaped_byte_exec(b: u8) -> (r: bool)
    ensures
        r == is_escaped_byte(b),
{
    b < 0x20 || b == 0x7f || b == 0x20 || b == 0x22 || b == 0x3c || b == 0x3e || b == 0x60
        || b == 0x26 || b == 0x25
}

fn hex_digit_exec(v: u8) -> (r: u8)
    requires
        v < 16,
    ensures
        r == hex_digit(v),
{
    if v < 10 {
        0x30 + v
    } else {
        0x41 + (v - 10)
    }
}

fn is_hex_byte_exec(b: u8) -> (r: bool)
    ensures
        r == is_hex_byte(b),
{
    (0x30 <= b && b <= 0x39) || (0x41 <= b && b <= 0x46) || (0x61 <= b && b <= 0x66)
}

fn hex_value_exec(b: u8) -> (r: u8)
    requires
        is_hex_byte(b),
    ensures
        r == hex_value(b),
{
    if 0x30 <= b && b <= 0x39 {
        b - 0x30
    } else if 0x41 <= b && b <= 0x46 {
        b - 0x41 + 10
    } else {
        b - 0x61 + 10
    }
}

/// Percent-encode a byte string.
pub fn encode_vec(input: &[u8]) -> (out: Vec<u8>)
    ensures
        out@ == encode_bytes(input@),
{
    let mut out: Vec<u8> = Vec::new();
    let mut i: usize = 0;
    while i < input.len()
        invariant
            0 <= i <= input@.len(),
            out@ == encode_bytes(input@.take(i as int)),
        decreases input@.len() - i,
    {
        let b = input[i];
        proof {
            assert(input@.take(i + 1 as int) =~= input@.take(i as int) + seq![input@[i as int]]);
            lemma_encode_bytes_concat(input@.take(i as int), seq![input@[i as int]]);
            assert(seq![b].drop_first() =~= Seq::<u8>::empty());
            assert(encode_bytes(Seq::<u8>::empty()) =~= Seq::<u8>::empty());
            assert(encode_bytes(seq![b]) =~= encode_one(b) + Seq::<u8>::empty());
            assert(encode_bytes(seq![b]) =~= encode_one(b));
        }
        if is_escaped_byte_exec(b) {
            out.push(0x25);
            out.push(hex_digit_exec(b / 16));
            out.push(hex_digit_exec(b % 16));
        } else {
            out.push(b);
        }
        i = i + 1;
    }
    proof {
        assert(input@.take(input@.len() as int) =~= input@);
    }
    out
}

/// Percent-decode a byte string; `None` on a malformed escape.
pub fn decode_vec(input: &[u8]) -> (out: Option<Vec<u8>>)
    ensures
        match out {
            Some(v) => decode_bytes(input@) == Some(v@),
            None => decode_bytes(input@) is None,
        },
{
    let mut out: Vec<u8> = Vec::new();
    let mut i: usize = 0;
    proof {
        assert(input@.skip(0) =~= input@);
        match decode_bytes(input@) {
            Some(rest) => {
                assert(Seq::<u8>::empty() + rest =~= rest);
            },
            None => {},
        }
    }
    while i < input.len()
        invariant
            0 <= i <= input@.len(),
            decode_bytes(input@.skip(i as int)) matches Some(rest) ==> decode_bytes(input@)
                == Some(out@ + rest),
            decode_bytes(input@.skip(i as int)) is None ==> decode_bytes(input@) is None,
        decreases input@.len() - i,
    {
        let ghost pre = input@.skip(i as int);
        proof {
            assert(pre.len() == input@.len() - i);
            assert(pre[0] == input@[i as int]);
        }
        let b = input[i];
        if b == 0x25 {
            if input.len() - i >= 3 && is_hex_byte_exec(input[i + 1]) && is_hex_byte_exec(
                input[i + 2],
            ) {
                proof {
                    assert(pre.len() >= 3);
                    assert(pre[1] == input@[i + 1 as int]);
                    assert(pre[2] == input@[i + 2 as int]);
                    assert(pre.skip(3) =~= input@.skip(i + 3 as int));
                }
                let v = hex_value_exec(input[i + 1]) * 16 + hex_value_exec(input[i + 2]);
                let ghost out_pre = out@;
                out.push(v);
                proof {
                    match decode_bytes(input@.skip(i + 3 as int)) {
                        Some(rest) => {
                            assert(decode_bytes(pre) == Some(seq![v] + rest));
                            assert(out_pre + (seq![v] + rest) =~= out@ + rest);
                        },
                        None => {},
                    }
                }
                i = i + 3;
            } else {
                proof {
                    assert(!(pre.len() >= 3 && is_hex_byte(pre[1]) && is_hex_byte(pre[2]))) by {
                        if pre.len() >= 3 {
                            assert(pre[1] == input@[i + 1 as int]);
                            assert(pre[2] == input@[i + 2 as int]);
                        }
                    }
                    assert(decode_bytes(pre) is None);
                }
                return None;
            }
        } else {
            let ghost out_pre = out@;
            out.push(b);
            proof {
                assert(pre.skip(1) =~= input@.skip(i + 1 as int));
                match decode_bytes(input@.skip(i + 1 as int)) {
                    Some(rest) => {
                        assert(decode_bytes(pre) == Some(seq![b] + rest));
                        assert(out_pre + (seq![b] + rest) =~= out@ + rest);
                    },
                    None => {},
                }
            }
            i = i + 1;
        }
    }
    proof {
        assert(input@.skip(input@.len() as int) =~= Seq::<u8>::empty());
        assert(out@ + Seq::<u8>::empty() =~= out@);
    }
    Some(out)
}

/// Lexicographic order on byte strings.
pub open spec fn lex_le_bytes(a: Seq<u8>, b: Seq<u8>) -> bool
    decreases a.len(),
{
    if a.len() == 0 {
        true
    } else if b.len() == 0 {
        false
    } else if a[0] < b[0] {
        true
    } else if a[0] > b[0] {
        false
    } else {
        lex_le_bytes(a.drop_first(), b.drop_first())
    }
}

fn copy_bytes(v: &Vec<u8>) -> (r: Vec<u8>)
    ensures
        r@ == v@,
{
    let mut r: Vec<u8> = Vec::new();
    let mut i: usize = 0;
    while i < v.len()
        invariant
            0 <= i <= v@.len(),
            r@ == v@.take(i as int),
        decreases v@.len() - i,
    {
        r.push(v[i]);
        proof {
            assert(v@.take(i + 1 as int) =~= v@.take(i as int).push(v@[i as int]));
        }
        i = i + 1;
    }
    proof {
        assert(v@.take(v@.len() as int) =~= v@);
    }
    r
}

/// Relies on String::from_utf8: it succeeds exactly on UTF-8 input,
/// and the returned string holds the characters those bytes encode.
#[verifier::external_body]
fn bytes_to_string(v: Vec<u8>) -> (r: Option<String>)
    ensures
        r is Some <==> valid_utf8(v@),
        r matches Some(s) ==> s@ == decode_utf8(v@),
{
    match String::from_utf8(v) {
        Ok(s) => Some(s),
        Err(_) => None,
    }
}

/// The failure of [`ClientString::plain`]: the stored form either holds
/// a `%` not followed by two hex digits, or decodes to bytes that are
/// not UTF-8.
#[derive(Clone, Copy, Debug, PartialEq, Eq, Structural)]
pub enum DecodeError {
    MalformedEscape,
    InvalidUtf8,
}

/// A name in canonical percent-encoded form. The stored bytes are the
/// UTF-8 bytes of the encoded spelling; equality, ordering and hashing
/// all work on this form.
#[verifier::ext_equal]
pub struct ClientString {
    data: Vec<u8>,
}

impl View for ClientString {
    type V = Seq<u8>;

    closed spec fn view(&self) -> Seq<u8> {
        self.data@
    }
}

impl ClientString {
    /// The stored encoded form is always itself valid UTF-8, so it can
    /// be handed back as a string.
    #[verifier::type_invariant]
    pub closed spec fn well_formed(self) -> bool {
        valid_utf8(self.data@)
    }

    /// Encode a plain client string: percent-escape the reserved bytes
    /// of its UTF-8 form.
    pub fn from_client(string: &str) -> (r: Self)
        ensures
            r@ == encode_name(string@),
    {
        broadcast use encode_utf8_valid_utf8;

        let bytes = slice_to_vec(string.as_bytes());
        let data = encode_vec(bytes.as_slice());
        proof {
            lemma_encode_preserves_valid_utf8(encode_utf8(string@));
        }
        ClientString { data }
    }

    /// Adopt an already-encoded fragment unchanged.
    pub fn from_url(string: &str) -> (r: Self)
        ensures
            r@ == encode_utf8(string@),
    {
        broadcast use encode_utf8_valid_utf8;

        ClientString { data: slice_to_vec(string.as_bytes()) }
    }

    /// Adopt already-encoded bytes unchanged.
    pub fn from_encoded_bytes(data: Vec<u8>) -> (r: Self)
        requires
            valid_utf8(data@),
        ensures
            r@ == data@,
    {
        ClientString { data }
    }

    /// Adopt already-encoded bytes when they are valid UTF-8.
    pub fn from_encoded_checked(data: Vec<u8>) -> (r: Option<ClientString>)
        ensures
            match r {
                Some(c) => c@ == data@ && valid_utf8(data@),
                None => !valid_utf8(data@),
            },
    {
        match bytes_to_string(copy_bytes(&data)) {
            Some(_) => Some(ClientString { data }),
            None => None,
        }
    }

    /// The stored encoded form, as a string.
    pub fn encoded(&self) -> (r: String)
        ensures
            r@ == decode_utf8(self@),
            encode_utf8(r@) == self@,
    {
        broadcast use decode_utf8_encode_utf8;

        proof {
            use_type_invariant(self);
        }
        match bytes_to_string(copy_bytes(&self.data)) {
            Some(s) => s,
            None => {
                proof {
                    assert(false);
                }
                String::new()
            },
        }
    }

    /// The stored encoded form, as bytes. The bytes of any reachable
    /// value are valid UTF-8.
    pub fn encoded_bytes(&self) -> (r: &Vec<u8>)
        ensures
            r@ == self@,
            valid_utf8(self@),
    {
        proof {
            use_type_invariant(self);
        }
        &self.data
    }

    /// The decoded string, or the reason the stored form does not
    /// decode.
    pub fn plain(&self) -> (r: Result<String, DecodeError>)
        ensures
            match r {
                Ok(s) => decode_name(self@) == Some(s@),
                Err(DecodeError::MalformedEscape) => decode_bytes(self@) is None,
                Err(DecodeError::InvalidUtf8) => decode_bytes(self@) matches Some(b) && !valid_utf8(
                    b,
                ),
            },
    {
        match decode_vec(self.data.as_slice()) {
            None => Err(DecodeError::MalformedEscape),
            Some(b) => match bytes_to_string(b) {
                Some(s) => Ok(s),
                None => Err(DecodeError::InvalidUtf8),
            },
        }
    }

    /// Equality on the encoded form.
    pub fn eq_name(&self, other: &Self) -> (r: bool)
        ensures
            r == (self@ == other@),
    {
        let a = &self.data;
        let b = &other.data;
        if a.len() != b.len() {
            proof {
                assert(self@ != other@);
            }
            return false;
        }
        let mut i: usize = 0;
        while i < a.len()
            invariant
                a@ == self@,
                b@ == other@,
                a@.len() == b@.len(),
                0 <= i <= a@.len(),
                forall|j: int| 0 <= j < i ==> a@[j] == b@[j],
            decreases a@.len() - i,
        {
            if a[i] != b[i] {
                return false;
            }
            i = i + 1;
        }
        proof {
            assert(a@ =~= b@);
        }
        true
    }

    /// Lexicographic order on the encoded form.
    pub fn le_name(&self, other: &Self) -> (r: bool)
        ensures
            r == lex_le_bytes(self@, other@),
    {
        let a = &self.data;
        let b = &other.data;
        let mut i: usize = 0;
        proof {
            assert(a@.skip(0) =~= a@);
            assert(b@.skip(0) =~= b@);
        }
        loop
            invariant
                a@ == self@,
                b@ == other@,
                0 <= i <= a@.len(),
                0 <= i <= b@.len(),
                lex_le_bytes(a@, b@) == lex_le_bytes(a@.skip(i as int), b@.skip(i as int)),
            decreases a@.len() - i,
        {
            let ghost sa = a@.skip(i as int);
            let ghost sb = b@.skip(i as int);
            if i >= a.len() {
                proof {
                    assert(sa.len() == 0);
                    assert(lex_le_bytes(sa, sb));
                    assert(lex_le_bytes(a@, b@));
                    assert(self@ == a@ && other@ == b@);
                }
                return true;
            }
            if i >= b.len() {
                proof {
                    assert(sa.len() > 0 && sb.len() == 0);
                    assert(!lex_le_bytes(sa, sb));
                }
                return false;
            }
            proof {
                assert(sa[0] == a@[i as int] && sb[0] == b@[i as int]);
                assert(sa.drop_first() =~= a@.skip(i + 1 as int));
                assert(sb.drop_first() =~= b@.skip(i + 1 as int));
            }
            if a[i] < b[i] {
                return true;
            }
            if a[i] > b[i] {
                return false;
            }
            i = i + 1;
        }
    }

    /// True when the stored form is empty.
    pub fn is_empty(&self) -> (r: bool)
        ensures
            r == (self@.len() == 0),
    {
        self.data.len() == 0
    }
}

impl Clone for ClientString {
    /// The copy carries the same encoded form.
    fn clone(&self) -> (r: Self)
        ensures
            r@ == self@,
    {
        proof {
            use_type_invariant(self);
        }
        ClientString { data: copy_bytes(&self.data) }
    }
}

impl Default for ClientString {
    /// The empty name.
    fn default() -> (r: Self)
        ensures
            r@ == Seq::<u8>::empty(),
    {
        let r = ClientString { data: Vec::new() };
        r
    }
}

} // verus!
