//! The persisted snapshot format.
//!
//! The snapshot tree is written as canonical JSON bytes: an object
//! holding the forest of root items, each item an object carrying its
//! name (encoded), kind, timestamp, media type, size and children, in
//! that order, with no whitespace. Parent links and paths are derived
//! data and are not persisted. The reader is strict: it accepts
//! exactly this canonical form, and reading back what was written
//! yields the tree that was written.

use crate::client_string::{hex_digit, hex_value, is_hex_byte, ClientString};
use crate::content::filesystem::LocalFilesystem;
use crate::content::item::{forest_model, item_model, lemma_forest_model, ItemModel, LocalItem};
use vstd::utf8::valid_utf8;
use vstd::prelude::*;

verus! {

/// True for an ASCII decimal digit.
pub open spec fn is_digit(b: u8) -> bool {
    0x30 <= b && b <= 0x39
}

/// The decimal spelling of a number, most significant digit first.
pub open spec fn dec_digits(n: u64) -> Seq<u8>
    decreases n,
{
    if n < 10 {
        seq![(0x30 + n) as u8]
    } else {
        dec_digits(n / 10).push((0x30 + n % 10) as u8)
    }
}

/// The number a digit string spells, or nothing on overflow.
pub open spec fn dec_value(ds: Seq<u8>) -> Option<u64>
    decreases ds.len(),
{
    if ds.len() == 0 {
        None
    } else if ds.len() == 1 {
        Some((ds[0] - 0x30) as u64)
    } else {
        match dec_value(ds.drop_last()) {
            None => None,
            Some(hi) => {
                let d = (ds.last() - 0x30) as u64;
                if hi <= (u64::MAX - d) / 10 {
                    Some((hi * 10 + d) as u64)
                } else {
                    None
                }
            },
        }
    }
}

/// The longest digit prefix of a byte string, and what follows it.
pub open spec fn span_digits(s: Seq<u8>) -> (Seq<u8>, Seq<u8>)
    decreases s.len(),
{
    if s.len() == 0 || !is_digit(s[0]) {
        (Seq::<u8>::empty(), s)
    } else {
        let (ds, rest) = span_digits(s.drop_first());
        (seq![s[0]] + ds, rest)
    }
}

/// Parse a decimal number and return what follows it.
pub open spec fn parse_u64(s: Seq<u8>) -> Option<(u64, Seq<u8>)> {
    let (ds, rest) = span_digits(s);
    match dec_value(ds) {
        None => None,
        Some(v) => Some((v, rest)),
    }
}

/// Every byte of a decimal spelling is a digit.
proof fn lemma_dec_digits_are_digits(n: u64)
    ensures
        dec_digits(n).len() >= 1,
        forall|i: int| 0 <= i < dec_digits(n).len() ==> is_digit(#[trigger] dec_digits(n)[i]),
    decreases n,
{
    if n < 10 {
    } else {
        lemma_dec_digits_are_digits(n / 10);
    }
}

/// The digit span of a spelling followed by a non-digit is the
/// spelling.
proof fn lemma_span_digits_of(ds: Seq<u8>, rest: Seq<u8>)
    requires
        forall|i: int| 0 <= i < ds.len() ==> is_digit(#[trigger] ds[i]),
        rest.len() == 0 || !is_digit(rest[0]),
    ensures
        span_digits(ds + rest) == (ds, rest),
    decreases ds.len(),
{
    if ds.len() == 0 {
        assert(ds + rest =~= rest);
        if rest.len() == 0 {
            assert(span_digits(rest) == (Seq::<u8>::empty(), rest));
        }
    } else {
        assert((ds + rest)[0] == ds[0]);
        assert((ds + rest).drop_first() =~= ds.drop_first() + rest);
        assert forall|i: int| 0 <= i < ds.drop_first().len() implies is_digit(
            #[trigger] ds.drop_first()[i],
        ) by {
            assert(ds.drop_first()[i] == ds[i + 1]);
        }
        lemma_span_digits_of(ds.drop_first(), rest);
        assert(seq![ds[0]] + ds.drop_first() =~= ds);
    }
}

/// A spelling spells its number back.
proof fn lemma_dec_value_of(n: u64)
    ensures
        dec_value(dec_digits(n)) == Some(n),
    decreases n,
{
    if n < 10 {
        assert(dec_digits(n) =~= seq![(0x30 + n) as u8]);
    } else {
        lemma_dec_value_of(n / 10);
        let ds = dec_digits(n);
        assert(ds =~= dec_digits(n / 10).push((0x30 + n % 10) as u8));
        assert(ds.drop_last() =~= dec_digits(n / 10));
        assert(ds.last() == (0x30 + n % 10) as u8);
        lemma_dec_digits_are_digits(n / 10);
        assert(ds.len() >= 2);
        let d = (ds.last() - 0x30) as u64;
        assert(d == n % 10);
        assert(n / 10 <= (u64::MAX - d) / 10) by (nonlinear_arith)
            requires
                d == n % 10,
                n >= 10,
        ;
        assert((n / 10) * 10 + n % 10 == n) by (nonlinear_arith);
    }
}

/// Parsing what the number writer wrote yields the number, leaving the
/// trailing bytes, provided they do not begin with a digit.
pub proof fn lemma_parse_dec(n: u64, rest: Seq<u8>)
    requires
        rest.len() == 0 || !is_digit(rest[0]),
    ensures
        parse_u64(dec_digits(n) + rest) == Some((n, rest)),
{
    lemma_dec_digits_are_digits(n);
    lemma_span_digits_of(dec_digits(n), rest);
    lemma_dec_value_of(n);
}

/// The escaped spelling of one byte inside a JSON string: quotes and
/// backslashes get a two-byte escape, control bytes a `\u00XX` escape,
/// anything else stands as itself.
pub open spec fn escape_one(b: u8) -> Seq<u8> {
    if b == 0x22 {
        seq![0x5cu8, 0x22u8]
    } else if b == 0x5c {
        seq![0x5cu8, 0x5cu8]
    } else if b < 0x20 {
        seq![0x5cu8, 0x75u8, 0x30u8, 0x30u8, hex_digit(b / 16), hex_digit(b % 16)]
    } else {
        seq![b]
    }
}

/// The escaped body of a JSON string.
pub open spec fn json_escape(s: Seq<u8>) -> Seq<u8>
    decreases s.len(),
{
    if s.len() == 0 {
        Seq::<u8>::empty()
    } else {
        escape_one(s[0]) + json_escape(s.drop_first())
    }
}

/// A whole JSON string: quote, escaped body, quote.
pub open spec fn emit_string(s: Seq<u8>) -> Seq<u8> {
    seq![0x22u8] + json_escape(s) + seq![0x22u8]
}

/// Parse the body of a JSON string up to its closing quote, returning
/// the unescaped bytes and what follows the quote.
pub open spec fn parse_string_body(s: Seq<u8>) -> Option<(Seq<u8>, Seq<u8>)>
    decreases s.len(),
{
    if s.len() == 0 {
        None
    } else if s[0] == 0x22 {
        Some((Seq::<u8>::empty(), s.skip(1)))
    } else if s[0] == 0x5c {
        if s.len() >= 2 && (s[1] == 0x22 || s[1] == 0x5c) {
            match parse_string_body(s.skip(2)) {
                None => None,
                Some((body, rest)) => Some((seq![s[1]] + body, rest)),
            }
        } else if s.len() >= 6 && s[1] == 0x75 && s[2] == 0x30 && s[3] == 0x30 && is_hex_byte(s[4])
            && is_hex_byte(s[5]) {
            match parse_string_body(s.skip(6)) {
                None => None,
                Some((body, rest)) => Some(
                    (seq![(hex_value(s[4]) * 16 + hex_value(s[5])) as u8] + body, rest),
                ),
            }
        } else {
            None
        }
    } else {
        match parse_string_body(s.skip(1)) {
            None => None,
            Some((body, rest)) => Some((seq![s[0]] + body, rest)),
        }
    }
}

/// Parse a whole JSON string.
pub open spec fn parse_string(s: Seq<u8>) -> Option<(Seq<u8>, Seq<u8>)> {
    if s.len() >= 1 && s[0] == 0x22 {
        parse_string_body(s.skip(1))
    } else {
        None
    }
}

proof fn lemma_parse_string_body_of(s: Seq<u8>, rest: Seq<u8>)
    ensures
        parse_string_body(json_escape(s) + seq![0x22u8] + rest) == Some((s, rest)),
    decreases s.len(),
{
    if s.len() == 0 {
        assert(json_escape(s) + seq![0x22u8] + rest =~= seq![0x22u8] + rest);
        assert((seq![0x22u8] + rest)[0] == 0x22);
        assert((seq![0x22u8] + rest).skip(1) =~= rest);
    } else {
        lemma_parse_string_body_of(s.drop_first(), rest);
        let tail = json_escape(s.drop_first()) + seq![0x22u8] + rest;
        let whole = json_escape(s) + seq![0x22u8] + rest;
        assert(whole =~= escape_one(s[0]) + tail);
        let b = s[0];
        if b == 0x22 {
            assert(whole[0] == 0x5c && whole[1] == 0x22);
            assert(whole.skip(2) =~= tail);
            assert(seq![b] + s.drop_first() =~= s);
        } else if b == 0x5c {
            assert(whole[0] == 0x5c && whole[1] == 0x5c);
            assert(whole.skip(2) =~= tail);
            assert(seq![b] + s.drop_first() =~= s);
        } else if b < 0x20 {
            crate::client_string::lemma_hex_digit_value(b / 16);
            crate::client_string::lemma_hex_digit_value(b % 16);
            assert(whole[0] == 0x5c && whole[1] == 0x75 && whole[2] == 0x30 && whole[3] == 0x30);
            assert(whole[4] == hex_digit(b / 16) && whole[5] == hex_digit(b % 16));
            assert(whole.skip(6) =~= tail);
            assert((hex_value(whole[4]) * 16 + hex_value(whole[5])) as u8 == b);
            assert(seq![b] + s.drop_first() =~= s);
        } else {
            assert(whole[0] == b);
            assert(b != 0x22 && b != 0x5c);
            assert(whole.skip(1) =~= tail);
            assert(seq![b] + s.drop_first() =~= s);
        }
    }
}

/// Parsing what the string writer wrote yields the string, leaving the
/// trailing bytes.
pub proof fn lemma_parse_string_of(s: Seq<u8>, rest: Seq<u8>)
    ensures
        parse_string(emit_string(s) + rest) == Some((s, rest)),
{
    let whole = emit_string(s) + rest;
    assert(whole[0] == 0x22);
    assert(whole.skip(1) =~= json_escape(s) + seq![0x22u8] + rest);
    lemma_parse_string_body_of(s, rest);
}

/// True when the byte string begins with the given token.
pub open spec fn starts_with(s: Seq<u8>, tok: Seq<u8>) -> bool {
    s.len() >= tok.len() && s.take(tok.len() as int) == tok
}

/// Consume an exact token.
pub open spec fn parse_exact(s: Seq<u8>, tok: Seq<u8>) -> Option<Seq<u8>> {
    if starts_with(s, tok) {
        Some(s.skip(tok.len() as int))
    } else {
        None
    }
}

/// Consuming a token from itself-plus-rest leaves the rest.
pub proof fn lemma_parse_exact_of(tok: Seq<u8>, rest: Seq<u8>)
    ensures
        parse_exact(tok + rest, tok) == Some(rest),
{
    assert((tok + rest).take(tok.len() as int) =~= tok);
    assert((tok + rest).skip(tok.len() as int) =~= rest);
}

/// The field introducers and literals of the canonical form.
pub open spec fn tok_obj_name() -> Seq<u8> {
    seq![0x7bu8, 0x22u8, 0x6eu8, 0x61u8, 0x6du8, 0x65u8, 0x22u8, 0x3au8]
}

pub open spec fn tok_is_file() -> Seq<u8> {
    seq![
        0x2cu8,
        0x22u8,
        0x69u8,
        0x73u8,
        0x5fu8,
        0x72u8,
        0x65u8,
        0x67u8,
        0x75u8,
        0x6cu8,
        0x61u8,
        0x72u8,
        0x5fu8,
        0x66u8,
        0x69u8,
        0x6cu8,
        0x65u8,
        0x22u8,
        0x3au8,
    ]
}

pub open spec fn tok_ts() -> Seq<u8> {
    seq![
        0x2cu8,
        0x22u8,
        0x74u8,
        0x69u8,
        0x6du8,
        0x65u8,
        0x73u8,
        0x74u8,
        0x61u8,
        0x6du8,
        0x70u8,
        0x22u8,
        0x3au8,
    ]
}

pub open spec fn tok_mime() -> Seq<u8> {
    seq![
        0x2cu8,
        0x22u8,
        0x6du8,
        0x69u8,
        0x6du8,
        0x65u8,
        0x5fu8,
        0x74u8,
        0x79u8,
        0x70u8,
        0x65u8,
        0x22u8,
        0x3au8,
    ]
}

pub open spec fn tok_size() -> Seq<u8> {
    seq![0x2cu8, 0x22u8, 0x73u8, 0x69u8, 0x7au8, 0x65u8, 0x22u8, 0x3au8]
}

pub open spec fn tok_children() -> Seq<u8> {
    seq![
        0x2cu8,
        0x22u8,
        0x63u8,
        0x68u8,
        0x69u8,
        0x6cu8,
        0x64u8,
        0x72u8,
        0x65u8,
        0x6eu8,
        0x22u8,
        0x3au8,
    ]
}

pub open spec fn tok_roots() -> Seq<u8> {
    seq![0x7bu8, 0x22u8, 0x72u8, 0x6fu8, 0x6fu8, 0x74u8, 0x73u8, 0x22u8, 0x3au8]
}

pub open spec fn tok_null() -> Seq<u8> {
    seq![0x6eu8, 0x75u8, 0x6cu8, 0x6cu8]
}

pub open spec fn tok_true() -> Seq<u8> {
    seq![0x74u8, 0x72u8, 0x75u8, 0x65u8]
}

pub open spec fn tok_false() -> Seq<u8> {
    seq![0x66u8, 0x61u8, 0x6cu8, 0x73u8, 0x65u8]
}

/// An optional string: `null`, or the string.
pub open spec fn emit_opt_string(o: Option<Seq<u8>>) -> Seq<u8> {
    match o {
        None => tok_null(),
        Some(s) => emit_string(s),
    }
}

/// A boolean literal.
pub open spec fn emit_bool(b: bool) -> Seq<u8> {
    if b {
        tok_true()
    } else {
        tok_false()
    }
}

/// One item of the snapshot, in canonical field order.
pub open spec fn emit_item(m: ItemModel) -> Seq<u8>
    decreases m, 2int,
{
    tok_obj_name() + emit_string(m.name) + tok_is_file() + emit_bool(m.is_regular_file) + tok_ts()
        + dec_digits(m.timestamp) + tok_mime() + emit_opt_string(m.mime_type) + tok_size()
        + dec_digits(m.size) + tok_children() + emit_forest(m.children) + seq![0x7du8]
}

/// A forest of items: a bracketed, comma-separated list.
pub open spec fn emit_forest(s: Seq<ItemModel>) -> Seq<u8>
    decreases s, 1int,
{
    seq![0x5bu8] + emit_items(s) + seq![0x5du8]
}

pub open spec fn emit_items(s: Seq<ItemModel>) -> Seq<u8>
    decreases s, 0int,
{
    if s.len() == 0 {
        Seq::<u8>::empty()
    } else if s.len() == 1 {
        emit_item(s[0])
    } else {
        emit_item(s[0]) + seq![0x2cu8] + emit_items(s.drop_first())
    }
}

/// The whole snapshot: the forest of roots.
pub open spec fn emit_fs(s: Seq<ItemModel>) -> Seq<u8> {
    tok_roots() + emit_forest(s) + seq![0x7du8]
}

/// Parse a boolean literal.
pub open spec fn parse_bool(s: Seq<u8>) -> Option<(bool, Seq<u8>)> {
    if starts_with(s, tok_true()) {
        Some((true, s.skip(4)))
    } else if starts_with(s, tok_false()) {
        Some((false, s.skip(5)))
    } else {
        None
    }
}

/// Parse `null` or a string whose bytes are valid UTF-8.
pub open spec fn parse_opt_name(s: Seq<u8>) -> Option<(Option<Seq<u8>>, Seq<u8>)> {
    if starts_with(s, tok_null()) {
        Some((None, s.skip(4)))
    } else {
        match parse_name(s) {
            None => None,
            Some((b, rest)) => Some((Some(b), rest)),
        }
    }
}

/// Parse a string whose bytes are valid UTF-8; other strings are
/// rejected, since a name must be presentable again.
pub open spec fn parse_name(s: Seq<u8>) -> Option<(Seq<u8>, Seq<u8>)> {
    match parse_string(s) {
        None => None,
        Some((b, rest)) => if valid_utf8(b) {
            Some((b, rest))
        } else {
            None
        },
    }
}

/// Parse the leading fields of one item: name, kind, timestamp,
/// media type and size, up to the children introducer.
pub open spec fn parse_item_meta(s: Seq<u8>) -> Option<
    ((Seq<u8>, bool, u64, Option<Seq<u8>>, u64), Seq<u8>),
> {
    match parse_exact(s, tok_obj_name()) {
        None => None,
        Some(s1) => match parse_name(s1) {
            None => None,
            Some((name, s2)) => match parse_exact(s2, tok_is_file()) {
                None => None,
                Some(s3) => match parse_bool(s3) {
                    None => None,
                    Some((isf, s4)) => match parse_exact(s4, tok_ts()) {
                        None => None,
                        Some(s5) => match parse_u64(s5) {
                            None => None,
                            Some((ts, s6)) => match parse_exact(s6, tok_mime()) {
                                None => None,
                                Some(s7) => match parse_opt_name(s7) {
                                    None => None,
                                    Some((mime, s8)) => match parse_exact(s8, tok_size()) {
                                        None => None,
                                        Some(s9) => match parse_u64(s9) {
                                            None => None,
                                            Some((size, s10)) => match parse_exact(
                                                s10,
                                                tok_children(),
                                            ) {
                                                None => None,
                                                Some(s11) => Some(
                                                    ((name, isf, ts, mime, size), s11),
                                                ),
                                            },
                                        },
                                    },
                                },
                            },
                        },
                    },
                },
            },
        },
    }
}

/// Parse one item of the snapshot.
pub open spec fn parse_item(s: Seq<u8>, fuel: nat) -> Option<(ItemModel, Seq<u8>)>
    decreases fuel,
{
    if fuel == 0 {
        None
    } else {
        match parse_item_meta(s) {
            None => None,
            Some(((name, isf, ts, mime, size), s11)) => match parse_forest(
                s11,
                (fuel - 1) as nat,
            ) {
                None => None,
                Some((children, s12)) => match parse_exact(s12, seq![0x7du8]) {
                    None => None,
                    Some(s13) => Some(
                        (
                            ItemModel {
                                name,
                                is_regular_file: isf,
                                timestamp: ts,
                                mime_type: mime,
                                size,
                                children,
                            },
                            s13,
                        ),
                    ),
                },
            },
        }
    }
}

/// Parse a forest of items.
pub open spec fn parse_forest(s: Seq<u8>, fuel: nat) -> Option<(Seq<ItemModel>, Seq<u8>)>
    decreases fuel,
{
    if fuel == 0 {
        None
    } else {
        match parse_exact(s, seq![0x5bu8]) {
            None => None,
            Some(s1) => if starts_with(s1, seq![0x5du8]) {
                Some((Seq::<ItemModel>::empty(), s1.skip(1)))
            } else {
                match parse_items(s1, (fuel - 1) as nat) {
                    None => None,
                    Some((items, s2)) => match parse_exact(s2, seq![0x5du8]) {
                        None => None,
                        Some(s3) => Some((items, s3)),
                    },
                }
            },
        }
    }
}

pub open spec fn parse_items(s: Seq<u8>, fuel: nat) -> Option<(Seq<ItemModel>, Seq<u8>)>
    decreases fuel,
{
    if fuel == 0 {
        None
    } else {
        match parse_item(s, (fuel - 1) as nat) {
            None => None,
            Some((m, s1)) => if starts_with(s1, seq![0x2cu8]) {
                match parse_items(s1.skip(1), (fuel - 1) as nat) {
                    None => None,
                    Some((ms, s2)) => Some((seq![m] + ms, s2)),
                }
            } else {
                Some((seq![m], s1))
            },
        }
    }
}

/// Parse a whole snapshot; every input byte must belong to it.
pub open spec fn parse_fs(s: Seq<u8>, fuel: nat) -> Option<Seq<ItemModel>> {
    match parse_exact(s, tok_roots()) {
        None => None,
        Some(s1) => match parse_forest(s1, fuel) {
            None => None,
            Some((items, s2)) => match parse_exact(s2, seq![0x7du8]) {
                None => None,
                Some(s3) => if s3.len() == 0 {
                    Some(items)
                } else {
                    None
                },
            },
        },
    }
}

/// What a snapshot means: the canonical parse, given fuel enough for
/// any tree the bytes could spell.
pub open spec fn load_spec(s: Seq<u8>) -> Option<Seq<ItemModel>> {
    parse_fs(s, s.len() + 2)
}

/// The parse fuel an item or forest needs.
pub open spec fn item_fuel(m: ItemModel) -> nat
    decreases m, 1int,
{
    2 + forest_fuel(m.children)
}

pub open spec fn forest_fuel(s: Seq<ItemModel>) -> nat
    decreases s, 2int,
{
    1 + items_fuel(s)
}

pub open spec fn items_fuel(s: Seq<ItemModel>) -> nat
    decreases s, 0int,
{
    if s.len() == 0 {
        0
    } else {
        1 + item_fuel(s[0]) + items_fuel(s.drop_first())
    }
}

proof fn lemma_parse_bool_of(b: bool, rest: Seq<u8>)
    ensures
        parse_bool(emit_bool(b) + rest) == Some((b, rest)),
{
    let w = emit_bool(b) + rest;
    if b {
        assert(w.take(4) =~= tok_true());
        assert(w.skip(4) =~= rest);
    } else {
        assert(w.take(5) =~= tok_false());
        assert(w.skip(5) =~= rest);
        assert(w[0] == 0x66);
        assert(!starts_with(w, tok_true())) by {
            if starts_with(w, tok_true()) {
                assert(w.take(4)[0] == w[0]);
                assert(tok_true()[0] == 0x74);
            }
        }
    }
}

proof fn lemma_parse_opt_name_of(o: Option<Seq<u8>>, rest: Seq<u8>)
    requires
        o matches Some(t) ==> valid_utf8(t),
    ensures
        parse_opt_name(emit_opt_string(o) + rest) == Some((o, rest)),
{
    let w = emit_opt_string(o) + rest;
    match o {
        None => {
            assert(w.take(4) =~= tok_null());
            assert(w.skip(4) =~= rest);
        },
        Some(t) => {
            assert(w[0] == 0x22);
            assert(!starts_with(w, tok_null())) by {
                if starts_with(w, tok_null()) {
                    assert(w.take(4)[0] == w[0]);
                    assert(tok_null()[0] == 0x6e);
                }
            }
            assert(w =~= emit_string(t) + rest);
            lemma_parse_string_of(t, rest);
        },
    }
}

/// The leading fields written for an item read back.
#[verifier::rlimit(100)]
#[verifier::spinoff_prover]
proof fn lemma_parse_item_meta_of(m: ItemModel, tail: Seq<u8>)
    requires
        valid_names_item(m),
    ensures
        parse_item_meta(
            tok_obj_name() + emit_string(m.name) + tok_is_file() + emit_bool(m.is_regular_file)
                + tok_ts() + dec_digits(m.timestamp) + tok_mime() + emit_opt_string(m.mime_type)
                + tok_size() + dec_digits(m.size) + tok_children() + tail,
        ) == Some(((m.name, m.is_regular_file, m.timestamp, m.mime_type, m.size), tail)),
{
    let t11 = tail;
    let t10 = tok_children() + t11;
    let t9 = dec_digits(m.size) + t10;
    let t8 = tok_size() + t9;
    let t7 = emit_opt_string(m.mime_type) + t8;
    let t6 = tok_mime() + t7;
    let t5 = dec_digits(m.timestamp) + t6;
    let t4 = tok_ts() + t5;
    let t3 = emit_bool(m.is_regular_file) + t4;
    let t2 = tok_is_file() + t3;
    let t1 = emit_string(m.name) + t2;
    let w = tok_obj_name() + emit_string(m.name) + tok_is_file() + emit_bool(m.is_regular_file)
        + tok_ts() + dec_digits(m.timestamp) + tok_mime() + emit_opt_string(m.mime_type)
        + tok_size() + dec_digits(m.size) + tok_children() + tail;
    assert(w =~= tok_obj_name() + t1);
    lemma_parse_exact_of(tok_obj_name(), t1);
    lemma_parse_string_of(m.name, t2);
    lemma_parse_exact_of(tok_is_file(), t3);
    lemma_parse_bool_of(m.is_regular_file, t4);
    lemma_parse_exact_of(tok_ts(), t5);
    assert(t6[0] == 0x2c && !is_digit(t6[0]));
    lemma_parse_dec(m.timestamp, t6);
    lemma_parse_exact_of(tok_mime(), t7);
    lemma_parse_opt_name_of(m.mime_type, t8);
    lemma_parse_exact_of(tok_size(), t9);
    assert(t10[0] == 0x2c && !is_digit(t10[0]));
    lemma_parse_dec(m.size, t10);
    lemma_parse_exact_of(tok_children(), t11);
}

#[verifier::rlimit(100)]
#[verifier::spinoff_prover]
proof fn lemma_parse_item_of(m: ItemModel, rest: Seq<u8>, fuel: nat)
    requires
        fuel >= item_fuel(m),
        valid_names_item(m),
    ensures
        parse_item(emit_item(m) + rest, fuel) == Some((m, rest)),
    decreases fuel,
{
    let t13 = rest;
    let t12 = seq![0x7du8] + t13;
    let t11 = emit_forest(m.children) + t12;
    let w = emit_item(m) + rest;
    assert(w =~= tok_obj_name() + emit_string(m.name) + tok_is_file() + emit_bool(
        m.is_regular_file,
    ) + tok_ts() + dec_digits(m.timestamp) + tok_mime() + emit_opt_string(m.mime_type)
        + tok_size() + dec_digits(m.size) + tok_children() + t11);
    lemma_parse_item_meta_of(m, t11);
    lemma_parse_forest_of(m.children, t12, (fuel - 1) as nat);
    lemma_parse_exact_of(seq![0x7du8], t13);
    assert(parse_item(w, fuel) == Some((m, rest)));
}

proof fn lemma_parse_forest_of(s: Seq<ItemModel>, rest: Seq<u8>, fuel: nat)
    requires
        fuel >= forest_fuel(s),
        valid_names_forest(s),
    ensures
        parse_forest(emit_forest(s) + rest, fuel) == Some((s, rest)),
    decreases fuel,
{
    let w = emit_forest(s) + rest;
    let t1 = emit_items(s) + seq![0x5du8] + rest;
    assert(w =~= seq![0x5bu8] + t1);
    lemma_parse_exact_of(seq![0x5bu8], t1);
    if s.len() == 0 {
        assert(t1 =~= seq![0x5du8] + rest);
        assert(starts_with(t1, seq![0x5du8])) by {
            assert(t1.take(1) =~= seq![0x5du8]);
        }
        assert(t1.skip(1) =~= rest);
    } else {
        let t2 = seq![0x5du8] + rest;
        assert(t1 =~= emit_items(s) + t2);
        assert(t1[0] == emit_item(s[0])[0]) by {
            if s.len() == 1 {
                assert(emit_items(s) == emit_item(s[0]));
                assert(t1[0] == emit_items(s)[0]);
            } else {
                assert(t1[0] == emit_items(s)[0]);
                assert(emit_items(s)[0] == emit_item(s[0])[0]);
            }
        }
        assert(emit_item(s[0])[0] == 0x7b);
        assert(!starts_with(t1, seq![0x5du8])) by {
            if starts_with(t1, seq![0x5du8]) {
                assert(t1.take(1)[0] == t1[0]);
            }
        }
        lemma_parse_items_of(s, t2, (fuel - 1) as nat);
        lemma_parse_exact_of(seq![0x5du8], rest);
    }
}

#[verifier::rlimit(100)]
#[verifier::spinoff_prover]
proof fn lemma_parse_items_of(s: Seq<ItemModel>, rest: Seq<u8>, fuel: nat)
    requires
        s.len() > 0,
        fuel >= items_fuel(s),
        valid_names_forest(s),
        rest.len() > 0,
        rest[0] != 0x2c,
    ensures
        parse_items(emit_items(s) + rest, fuel) == Some((s, rest)),
    decreases fuel,
{
    let w = emit_items(s) + rest;
    assert(valid_names_item(s[0]));
    if s.len() == 1 {
        assert(w =~= emit_item(s[0]) + rest);
        lemma_parse_item_of(s[0], rest, (fuel - 1) as nat);
        assert(!starts_with(rest, seq![0x2cu8])) by {
            if starts_with(rest, seq![0x2cu8]) {
                assert(rest.take(1)[0] == rest[0]);
            }
        }
        assert(seq![s[0]] =~= s);
    } else {
        let t1 = seq![0x2cu8] + emit_items(s.drop_first()) + rest;
        assert(w =~= emit_item(s[0]) + t1);
        lemma_parse_item_of(s[0], t1, (fuel - 1) as nat);
        assert(starts_with(t1, seq![0x2cu8])) by {
            assert(t1.take(1) =~= seq![0x2cu8]);
        }
        assert(t1.skip(1) =~= emit_items(s.drop_first()) + rest);
        assert forall|i: int| 0 <= i < s.drop_first().len() implies valid_names_item(
            #[trigger] s.drop_first()[i],
        ) by {
            assert(s.drop_first()[i] == s[i + 1]);
        }
        lemma_parse_items_of(s.drop_first(), rest, (fuel - 1) as nat);
        assert(seq![s[0]] + s.drop_first() =~= s);
    }
}

/// What was written reads back: the canonical parse of an emitted
/// snapshot, with fuel at least the tree's need, is the tree.
proof fn lemma_parse_fs_of(s: Seq<ItemModel>, fuel: nat)
    requires
        fuel >= forest_fuel(s),
        valid_names_forest(s),
    ensures
        parse_fs(emit_fs(s), fuel) == Some(s),
{
    let w = emit_fs(s);
    let t1 = emit_forest(s) + seq![0x7du8];
    assert(w =~= tok_roots() + t1);
    lemma_parse_exact_of(tok_roots(), t1);
    lemma_parse_forest_of(s, seq![0x7du8], fuel);
    lemma_parse_exact_of(seq![0x7du8], Seq::<u8>::empty());
    assert(seq![0x7du8] + Seq::<u8>::empty() =~= seq![0x7du8]);
}

/// The emitted bytes are at least as many as the parse fuel the tree
/// needs.
proof fn lemma_emit_item_len(m: ItemModel)
    ensures
        emit_item(m).len() >= item_fuel(m) + 2,
    decreases m, 2int,
{
    lemma_emit_forest_len(m.children);
}

proof fn lemma_emit_forest_len(s: Seq<ItemModel>)
    ensures
        emit_forest(s).len() >= forest_fuel(s) + 1,
    decreases s, 1int,
{
    lemma_emit_items_len(s);
}

proof fn lemma_emit_items_len(s: Seq<ItemModel>)
    ensures
        emit_items(s).len() >= items_fuel(s),
    decreases s, 0int,
{
    if s.len() == 0 {
    } else if s.len() == 1 {
        lemma_emit_item_len(s[0]);
        assert(items_fuel(s.drop_first()) == 0) by {
            assert(s.drop_first().len() == 0);
        }
    } else {
        lemma_emit_item_len(s[0]);
        lemma_emit_items_len(s.drop_first());
    }
}

/// Reading back what was written yields the tree that was written.
pub proof fn lemma_snapshot_round_trip(s: Seq<ItemModel>)
    requires
        valid_names_forest(s),
    ensures
        load_spec(emit_fs(s)) == Some(s),
{
    lemma_emit_forest_len(s);
    lemma_parse_fs_of(s, emit_fs(s).len() + 2);
}

/// True when every name and media type of the forest is valid UTF-8,
/// as every name held in an encoded string is.
pub open spec fn valid_names_forest(s: Seq<ItemModel>) -> bool
    decreases s, 1int,
{
    forall|i: int| 0 <= i < s.len() ==> valid_names_item(#[trigger] s[i])
}

pub open spec fn valid_names_item(m: ItemModel) -> bool
    decreases m, 2int,
{
    &&& valid_utf8(m.name)
    &&& (m.mime_type matches Some(t) ==> valid_utf8(t))
    &&& valid_names_forest(m.children)
}


fn push_tok_obj_name(out: &mut Vec<u8>)
    ensures
        final(out)@ == old(out)@ + tok_obj_name(),
{
    out.push(0x7b);
    out.push(0x22);
    out.push(0x6e);
    out.push(0x61);
    out.push(0x6d);
    out.push(0x65);
    out.push(0x22);
    out.push(0x3a);
    proof {
        assert(out@ =~= old(out)@ + tok_obj_name());
    }
}

fn push_tok_is_file(out: &mut Vec<u8>)
    ensures
        final(out)@ == old(out)@ + tok_is_file(),
{
    out.push(0x2c);
    out.push(0x22);
    out.push(0x69);
    out.push(0x73);
    out.push(0x5f);
    out.push(0x72);
    out.push(0x65);
    out.push(0x67);
    out.push(0x75);
    out.push(0x6c);
    out.push(0x61);
    out.push(0x72);
    out.push(0x5f);
    out.push(0x66);
    out.push(0x69);
    out.push(0x6c);
    out.push(0x65);
    out.push(0x22);
    out.push(0x3a);
    proof {
        assert(out@ =~= old(out)@ + tok_is_file());
    }
}

fn push_tok_ts(out: &mut Vec<u8>)
    ensures
        final(out)@ == old(out)@ + tok_ts(),
{
    out.push(0x2c);
    out.push(0x22);
    out.push(0x74);
    out.push(0x69);
    out.push(0x6d);
    out.push(0x65);
    out.push(0x73);
    out.push(0x74);
    out.push(0x61);
    out.push(0x6d);
    out.push(0x70);
    out.push(0x22);
    out.push(0x3a);
    proof {
        assert(out@ =~= old(out)@ + tok_ts());
    }
}

fn push_tok_mime(out: &mut Vec<u8>)
    ensures
        final(out)@ == old(out)@ + tok_mime(),
{
    out.push(0x2c);
    out.push(0x22);
    out.push(0x6d);
    out.push(0x69);
    out.push(0x6d);
    out.push(0x65);
    out.push(0x5f);
    out.push(0x74);
    out.push(0x79);
    out.push(0x70);
    out.push(0x65);
    out.push(0x22);
    out.push(0x3a);
    proof {
        assert(out@ =~= old(out)@ + tok_mime());
    }
}

fn push_tok_size(out: &mut Vec<u8>)
    ensures
        final(out)@ == old(out)@ + tok_size(),
{
    out.push(0x2c);
    out.push(0x22);
    out.push(0x73);
    out.push(0x69);
    out.push(0x7a);
    out.push(0x65);
    out.push(0x22);
    out.push(0x3a);
    proof {
        assert(out@ =~= old(out)@ + tok_size());
    }
}

fn push_tok_children(out: &mut Vec<u8>)
    ensures
        final(out)@ == old(out)@ + tok_children(),
{
    out.push(0x2c);
    out.push(0x22);
    out.push(0x63);
    out.push(0x68);
    out.push(0x69);
    out.push(0x6c);
    out.push(0x64);
    out.push(0x72);
    out.push(0x65);
    out.push(0x6e);
    out.push(0x22);
    out.push(0x3a);
    proof {
        assert(out@ =~= old(out)@ + tok_children());
    }
}

fn push_tok_roots(out: &mut Vec<u8>)
    ensures
        final(out)@ == old(out)@ + tok_roots(),
{
    out.push(0x7b);
    out.push(0x22);
    out.push(0x72);
    out.push(0x6f);
    out.push(0x6f);
    out.push(0x74);
    out.push(0x73);
    out.push(0x22);
    out.push(0x3a);
    proof {
        assert(out@ =~= old(out)@ + tok_roots());
    }
}

fn push_tok_null(out: &mut Vec<u8>)
    ensures
        final(out)@ == old(out)@ + tok_null(),
{
    out.push(0x6e);
    out.push(0x75);
    out.push(0x6c);
    out.push(0x6c);
    proof {
        assert(out@ =~= old(out)@ + tok_null());
    }
}

fn push_tok_true(out: &mut Vec<u8>)
    ensures
        final(out)@ == old(out)@ + tok_true(),
{
    out.push(0x74);
    out.push(0x72);
    out.push(0x75);
    out.push(0x65);
    proof {
        assert(out@ =~= old(out)@ + tok_true());
    }
}

fn push_tok_false(out: &mut Vec<u8>)
    ensures
        final(out)@ == old(out)@ + tok_false(),
{
    out.push(0x66);
    out.push(0x61);
    out.push(0x6c);
    out.push(0x73);
    out.push(0x65);
    proof {
        assert(out@ =~= old(out)@ + tok_false());
    }
}

/// Escaping distributes over concatenation.
proof fn lemma_json_escape_concat(a: Seq<u8>, b: Seq<u8>)
    ensures
        json_escape(a + b) == json_escape(a) + json_escape(b),
    decreases a.len(),
{
    if a.len() == 0 {
        assert(a + b =~= b);
        assert(json_escape(a) + json_escape(b) =~= json_escape(b));
    } else {
        assert((a + b).drop_first() =~= a.drop_first() + b);
        lemma_json_escape_concat(a.drop_first(), b);
        assert(json_escape(a + b) =~= json_escape(a) + json_escape(b));
    }
}

/// Append a whole JSON string for the given bytes.
fn push_string(out: &mut Vec<u8>, bytes: &Vec<u8>)
    ensures
        final(out)@ == old(out)@ + emit_string(bytes@),
{
    let ghost base = old(out)@;
    out.push(0x22);
    let mut i: usize = 0;
    proof {
        assert(json_escape(bytes@.take(0)) =~= Seq::<u8>::empty());
        assert(out@ =~= base + seq![0x22u8] + json_escape(bytes@.take(0)));
    }
    while i < bytes.len()
        invariant
            0 <= i <= bytes@.len(),
            out@ == base + seq![0x22u8] + json_escape(bytes@.take(i as int)),
        decreases bytes@.len() - i,
    {
        let b = bytes[i];
        let ghost pre = out@;
        if b == 0x22 {
            out.push(0x5c);
            out.push(0x22);
        } else if b == 0x5c {
            out.push(0x5c);
            out.push(0x5c);
        } else if b < 0x20 {
            out.push(0x5c);
            out.push(0x75);
            out.push(0x30);
            out.push(0x30);
            out.push(hex_digit_exec_snap(b / 16));
            out.push(hex_digit_exec_snap(b % 16));
        } else {
            out.push(b);
        }
        proof {
            assert(out@ =~= pre + escape_one(bytes@[i as int]));
            assert(bytes@.take(i + 1 as int) =~= bytes@.take(i as int) + seq![bytes@[i as int]]);
            lemma_json_escape_concat(bytes@.take(i as int), seq![bytes@[i as int]]);
            assert(json_escape(seq![bytes@[i as int]]) =~= escape_one(bytes@[i as int])) by {
                assert(seq![bytes@[i as int]].drop_first() =~= Seq::<u8>::empty());
                assert(json_escape(Seq::<u8>::empty()) =~= Seq::<u8>::empty());
                assert(escape_one(bytes@[i as int]) + Seq::<u8>::empty() =~= escape_one(
                    bytes@[i as int],
                ));
            }
            assert(out@ =~= base + seq![0x22u8] + json_escape(bytes@.take(i + 1 as int)));
        }
        i = i + 1;
    }
    out.push(0x22);
    proof {
        assert(bytes@.take(bytes@.len() as int) =~= bytes@);
        assert(out@ =~= base + emit_string(bytes@));
    }
}

fn hex_digit_exec_snap(v: u8) -> (r: u8)
    requires
        v < 16,
    ensures
        r == hex_digit(v),
{
    if v < 10 {
        0x30 + v
    } else {
        0x41 + (v - 10)
    }
}

/// Append the decimal spelling of a number.
fn push_u64(out: &mut Vec<u8>, n: u64)
    ensures
        final(out)@ == old(out)@ + dec_digits(n),
    decreases n,
{
    if n < 10 {
        out.push(0x30 + (n as u8));
        proof {
            assert(out@ =~= old(out)@ + dec_digits(n));
        }
    } else {
        push_u64(out, n / 10);
        out.push(0x30 + ((n % 10) as u8));
        proof {
            assert(out@ =~= old(out)@ + dec_digits(n));
        }
    }
}

/// Append one item in canonical form.
#[verifier::rlimit(100)]
#[verifier::spinoff_prover]
fn emit_item_exec(out: &mut Vec<u8>, item: &LocalItem)
    ensures
        final(out)@ == old(out)@ + emit_item(item@),
        valid_names_item(item@),
    decreases item, 2int, 0int,
{
    let ghost base = out@;
    push_tok_obj_name(out);
    push_string(out, item.name.encoded_bytes());
    push_tok_is_file(out);
    if item.is_regular_file {
        push_tok_true(out);
    } else {
        push_tok_false(out);
    }
    push_tok_ts(out);
    push_u64(out, item.timestamp);
    push_tok_mime(out);
    match &item.mime_type {
        None => {
            push_tok_null(out);
        },
        Some(c) => {
            push_string(out, c.encoded_bytes());
        },
    }
    push_tok_size(out);
    push_u64(out, item.size);
    push_tok_children(out);
    emit_forest_exec(out, &item.children);
    out.push(0x7d);
    proof {
        assert(out@ =~= base + emit_item(item@));
    }
}

/// Append a forest in canonical form.
fn emit_forest_exec(out: &mut Vec<u8>, items: &Vec<LocalItem>)
    ensures
        final(out)@ == old(out)@ + emit_forest(forest_model(items@)),
        valid_names_forest(forest_model(items@)),
    decreases items@, 1int, 0int,
{
    let ghost base = out@;
    out.push(0x5b);
    emit_items_exec(out, items, 0);
    proof {
        assert(forest_model(items@).skip(0) =~= forest_model(items@));
        lemma_forest_model(items@);
        assert forall|i: int| 0 <= i < forest_model(items@).len() implies valid_names_item(
            #[trigger] forest_model(items@)[i],
        ) by {
            assert(forest_model(items@).skip(0)[i] == forest_model(items@)[i]);
        }
    }
    out.push(0x5d);
    proof {
        assert(out@ =~= base + emit_forest(forest_model(items@)));
    }
}

fn emit_items_exec(out: &mut Vec<u8>, items: &Vec<LocalItem>, start: usize)
    requires
        start <= items@.len(),
    ensures
        final(out)@ == old(out)@ + emit_items(forest_model(items@).skip(start as int)),
        valid_names_forest(forest_model(items@).skip(start as int)),
    decreases items@, 0int, items@.len() - start,
{
    let ghost fm = forest_model(items@);
    let ghost sub = fm.skip(start as int);
    proof {
        lemma_forest_model(items@);
    }
    if start >= items.len() {
        proof {
            assert(sub.len() == 0);
            assert(emit_items(sub) =~= Seq::<u8>::empty());
            assert(out@ =~= out@ + emit_items(sub));
        }
        return ;
    }
    let ghost base = out@;
    proof {
        assert(sub[0] == item_model(items@[start as int]));
    }
    emit_item_exec(out, &items[start]);
    if start + 1 < items.len() {
        out.push(0x2c);
        emit_items_exec(out, items, start + 1);
        proof {
            assert(sub.drop_first() =~= fm.skip(start + 1 as int));
            assert(sub.len() > 1);
            assert(out@ =~= base + emit_items(sub));
            assert forall|i: int| 0 <= i < sub.len() implies valid_names_item(
                #[trigger] sub[i],
            ) by {
                if i > 0 {
                    assert(sub[i] == sub.drop_first()[i - 1]);
                }
            }
        }
    } else {
        proof {
            assert(sub.len() == 1);
            assert(emit_items(sub) == emit_item(sub[0]));
            assert(out@ =~= base + emit_items(sub));
            assert forall|i: int| 0 <= i < sub.len() implies valid_names_item(
                #[trigger] sub[i],
            ) by {
                assert(sub[0] == item_model(items@[start as int]));
            }
        }
    }
}

/// Write a snapshot tree as canonical bytes.
pub fn save(fs: &LocalFilesystem) -> (r: Vec<u8>)
    ensures
        r@ == emit_fs(fs@),
        valid_names_forest(fs@),
{
    let mut out: Vec<u8> = Vec::new();
    push_tok_roots(&mut out);
    emit_forest_exec(&mut out, fs.get_roots());
    out.push(0x7d);
    proof {
        assert(out@ =~= emit_fs(fs@));
    }
    out
}


fn tok_vec_obj_name() -> (r: Vec<u8>)
    ensures
        r@ == tok_obj_name(),
{
    let mut v: Vec<u8> = Vec::new();
    v.push(0x7b);
    v.push(0x22);
    v.push(0x6e);
    v.push(0x61);
    v.push(0x6d);
    v.push(0x65);
    v.push(0x22);
    v.push(0x3a);
    proof {
        assert(v@ =~= tok_obj_name());
    }
    v
}

fn tok_vec_is_file() -> (r: Vec<u8>)
    ensures
        r@ == tok_is_file(),
{
    let mut v: Vec<u8> = Vec::new();
    v.push(0x2c);
    v.push(0x22);
    v.push(0x69);
    v.push(0x73);
    v.push(0x5f);
    v.push(0x72);
    v.push(0x65);
    v.push(0x67);
    v.push(0x75);
    v.push(0x6c);
    v.push(0x61);
    v.push(0x72);
    v.push(0x5f);
    v.push(0x66);
    v.push(0x69);
    v.push(0x6c);
    v.push(0x65);
    v.push(0x22);
    v.push(0x3a);
    proof {
        assert(v@ =~= tok_is_file());
    }
    v
}

fn tok_vec_ts() -> (r: Vec<u8>)
    ensures
        r@ == tok_ts(),
{
    let mut v: Vec<u8> = Vec::new();
    v.push(0x2c);
    v.push(0x22);
    v.push(0x74);
    v.push(0x69);
    v.push(0x6d);
    v.push(0x65);
    v.push(0x73);
    v.push(0x74);
    v.push(0x61);
    v.push(0x6d);
    v.push(0x70);
    v.push(0x22);
    v.push(0x3a);
    proof {
        assert(v@ =~= tok_ts());
    }
    v
}

fn tok_vec_mime() -> (r: Vec<u8>)
    ensures
        r@ == tok_mime(),
{
    let mut v: Vec<u8> = Vec::new();
    v.push(0x2c);
    v.push(0x22);
    v.push(0x6d);
    v.push(0x69);
    v.push(0x6d);
    v.push(0x65);
    v.push(0x5f);
    v.push(0x74);
    v.push(0x79);
    v.push(0x70);
    v.push(0x65);
    v.push(0x22);
    v.push(0x3a);
    proof {
        assert(v@ =~= tok_mime());
    }
    v
}

fn tok_vec_size() -> (r: Vec<u8>)
    ensures
        r@ == tok_size(),
{
    let mut v: Vec<u8> = Vec::new();
    v.push(0x2c);
    v.push(0x22);
    v.push(0x73);
    v.push(0x69);
    v.push(0x7a);
    v.push(0x65);
    v.push(0x22);
    v.push(0x3a);
    proof {
        assert(v@ =~= tok_size());
    }
    v
}

fn tok_vec_children() -> (r: Vec<u8>)
    ensures
        r@ == tok_children(),
{
    let mut v: Vec<u8> = Vec::new();
    v.push(0x2c);
    v.push(0x22);
    v.push(0x63);
    v.push(0x68);
    v.push(0x69);
    v.push(0x6c);
    v.push(0x64);
    v.push(0x72);
    v.push(0x65);
    v.push(0x6e);
    v.push(0x22);
    v.push(0x3a);
    proof {
        assert(v@ =~= tok_children());
    }
    v
}

fn tok_vec_roots() -> (r: Vec<u8>)
    ensures
        r@ == tok_roots(),
{
    let mut v: Vec<u8> = Vec::new();
    v.push(0x7b);
    v.push(0x22);
    v.push(0x72);
    v.push(0x6f);
    v.push(0x6f);
    v.push(0x74);
    v.push(0x73);
    v.push(0x22);
    v.push(0x3a);
    proof {
        assert(v@ =~= tok_roots());
    }
    v
}

fn tok_vec_null() -> (r: Vec<u8>)
    ensures
        r@ == tok_null(),
{
    let mut v: Vec<u8> = Vec::new();
    v.push(0x6e);
    v.push(0x75);
    v.push(0x6c);
    v.push(0x6c);
    proof {
        assert(v@ =~= tok_null());
    }
    v
}

/// Consume an exact token at a position.
fn eat_token(input: &[u8], pos: usize, tok: &Vec<u8>) -> (r: Option<usize>)
    requires
        pos <= input@.len(),
    ensures
        match r {
            Some(p2) => pos <= p2 <= input@.len() && parse_exact(input@.skip(pos as int), tok@)
                == Some(input@.skip(p2 as int)),
            None => parse_exact(input@.skip(pos as int), tok@) is None,
        },
{
    let ghost s = input@.skip(pos as int);
    if input.len() - pos < tok.len() {
        proof {
            assert(s.len() < tok@.len());
        }
        return None;
    }
    let mut i: usize = 0;
    while i < tok.len()
        invariant
            input@.len() <= usize::MAX,
            pos <= input@.len(),
            s == input@.skip(pos as int),
            tok@.len() <= s.len(),
            0 <= i <= tok@.len(),
            pos + tok@.len() <= input@.len(),
            forall|j: int| 0 <= j < i ==> s[j] == tok@[j],
        decreases tok@.len() - i,
    {
        if input[pos + i] != tok[i] {
            proof {
                assert(s[i as int] == input@[pos + i]);
                assert(!starts_with(s, tok@)) by {
                    if starts_with(s, tok@) {
                        assert(s.take(tok@.len() as int)[i as int] == s[i as int]);
                    }
                }
            }
            return None;
        }
        proof {
            assert(s[i as int] == input@[pos + i]);
        }
        i = i + 1;
    }
    proof {
        assert(s.take(tok@.len() as int) =~= tok@);
        assert(s.skip(tok@.len() as int) =~= input@.skip(pos + tok@.len()));
    }
    Some(pos + tok.len())
}

fn is_digit_exec(b: u8) -> (r: bool)
    ensures
        r == is_digit(b),
{
    0x30 <= b && b <= 0x39
}

fn is_hex_exec(b: u8) -> (r: bool)
    ensures
        r == is_hex_byte(b),
{
    (0x30 <= b && b <= 0x39) || (0x41 <= b && b <= 0x46) || (0x61 <= b && b <= 0x66)
}

fn hex_value_exec_snap(b: u8) -> (r: u8)
    requires
        is_hex_byte(b),
    ensures
        r == hex_value(b),
{
    if 0x30 <= b && b <= 0x39 {
        b - 0x30
    } else if 0x41 <= b && b <= 0x46 {
        b - 0x41 + 10
    } else {
        b - 0x61 + 10
    }
}

/// Parse a JSON string at a position.
fn parse_string_exec(input: &[u8], pos: usize) -> (r: Option<(Vec<u8>, usize)>)
    requires
        pos <= input@.len(),
    ensures
        match r {
            Some(p) => pos <= p.1 <= input@.len() && parse_string(input@.skip(pos as int)) == Some(
                (p.0@, input@.skip(p.1 as int)),
            ),
            None => parse_string(input@.skip(pos as int)) is None,
        },
{
    let ghost s0 = input@.skip(pos as int);
    if pos >= input.len() || input[pos] != 0x22 {
        proof {
            if s0.len() > 0 {
                assert(s0[0] == input@[pos as int]);
            }
        }
        return None;
    }
    proof {
        assert(s0[0] == 0x22);
        assert(s0.skip(1) =~= input@.skip(pos + 1));
    }
    let mut cur: usize = pos + 1;
    let mut out: Vec<u8> = Vec::new();
    loop
        invariant
            pos < input@.len(),
            pos + 1 <= cur <= input@.len(),
            parse_string(input@.skip(pos as int)) == parse_string_body(input@.skip(pos + 1)),
            parse_string_body(input@.skip(cur as int)) matches Some(br) ==> parse_string_body(
                input@.skip(pos + 1),
            ) == Some((out@ + br.0, br.1)),
            parse_string_body(input@.skip(cur as int)) is None ==> parse_string_body(
                input@.skip(pos + 1),
            ) is None,
        decreases input@.len() - cur,
    {
        let ghost sc = input@.skip(cur as int);
        if cur >= input.len() {
            proof {
                assert(sc.len() == 0);
            }
            return None;
        }
        proof {
            assert(sc[0] == input@[cur as int]);
        }
        let b = input[cur];
        if b == 0x22 {
            proof {
                assert(parse_string_body(sc) == Some((Seq::<u8>::empty(), sc.skip(1))));
                assert(sc.skip(1) =~= input@.skip(cur + 1));
                assert(out@ + Seq::<u8>::empty() =~= out@);
            }
            return Some((out, cur + 1));
        }
        if b == 0x5c {
            if input.len() - cur >= 2 && (input[cur + 1] == 0x22 || input[cur + 1] == 0x5c) {
                proof {
                    assert(sc[1] == input@[cur + 1]);
                    assert(sc.skip(2) =~= input@.skip(cur + 2));
                }
                let ghost out_pre = out@;
                out.push(input[cur + 1]);
                proof {
                    match parse_string_body(input@.skip(cur + 2)) {
                        Some(br) => {
                            assert(out_pre + (seq![sc[1]] + br.0) =~= out@ + br.0);
                        },
                        None => {},
                    }
                }
                cur = cur + 2;
            } else if input.len() - cur >= 6 && input[cur + 1] == 0x75 && input[cur + 2] == 0x30
                && input[cur + 3] == 0x30 && is_hex_exec(input[cur + 4]) && is_hex_exec(
                input[cur + 5],
            ) {
                proof {
                    assert(sc.len() >= 6);
                    assert(sc[1] == input@[cur + 1] && sc[2] == input@[cur + 2] && sc[3]
                        == input@[cur + 3] && sc[4] == input@[cur + 4] && sc[5] == input@[
                        cur + 5]);
                    assert(sc.skip(6) =~= input@.skip(cur + 6));
                }
                let v = hex_value_exec_snap(input[cur + 4]) * 16 + hex_value_exec_snap(
                    input[cur + 5],
                );
                let ghost out_pre = out@;
                out.push(v);
                proof {
                    match parse_string_body(input@.skip(cur + 6)) {
                        Some(br) => {
                            assert(out_pre + (seq![v] + br.0) =~= out@ + br.0);
                        },
                        None => {},
                    }
                }
                cur = cur + 6;
            } else {
                proof {
                    assert(parse_string_body(sc) is None) by {
                        if sc.len() >= 2 {
                            assert(sc[1] == input@[cur + 1]);
                        }
                        if sc.len() >= 6 {
                            assert(sc[1] == input@[cur + 1] && sc[2] == input@[cur + 2] && sc[3]
                                == input@[cur + 3] && sc[4] == input@[cur + 4] && sc[5] == input@[
                                cur + 5]);
                        }
                    }
                }
                return None;
            }
        } else {
            proof {
                assert(sc.skip(1) =~= input@.skip(cur + 1));
            }
            let ghost out_pre = out@;
            out.push(b);
            proof {
                match parse_string_body(input@.skip(cur + 1)) {
                    Some(br) => {
                        assert(out_pre + (seq![b] + br.0) =~= out@ + br.0);
                    },
                    None => {},
                }
            }
            cur = cur + 1;
        }
    }
}

proof fn lemma_span_digits_split(s: Seq<u8>, i: int)
    requires
        0 <= i <= s.len(),
        forall|j: int| 0 <= j < i ==> is_digit(#[trigger] s[j]),
        i == s.len() || !is_digit(s[i]),
    ensures
        span_digits(s) == (s.take(i), s.skip(i)),
    decreases i,
{
    if i == 0 {
        assert(s.take(0) =~= Seq::<u8>::empty());
        assert(s.skip(0) =~= s);
    } else {
        assert(is_digit(s[0]));
        assert forall|j: int| 0 <= j < i - 1 implies is_digit(#[trigger] s.drop_first()[j]) by {
            assert(s.drop_first()[j] == s[j + 1]);
        }
        assert(i - 1 == s.drop_first().len() || !is_digit(s.drop_first()[i - 1])) by {
            if i - 1 < s.drop_first().len() {
                assert(s.drop_first()[i - 1] == s[i]);
            }
        }
        lemma_span_digits_split(s.drop_first(), i - 1);
        assert(seq![s[0]] + s.drop_first().take(i - 1) =~= s.take(i));
        assert(s.drop_first().skip(i - 1) =~= s.skip(i));
    }
}

proof fn lemma_dec_value_none_extend(ds: Seq<u8>, j: int)
    requires
        1 <= j <= ds.len(),
        dec_value(ds.take(j)) is None,
    ensures
        dec_value(ds) is None,
    decreases ds.len() - j,
{
    if j == ds.len() {
        assert(ds.take(j) =~= ds);
    } else {
        assert(ds.take(j + 1).drop_last() =~= ds.take(j));
        assert(ds.take(j + 1).len() >= 2);
        lemma_dec_value_none_extend(ds, j + 1);
    }
}

/// Parse a decimal number at a position.
fn parse_u64_exec(input: &[u8], pos: usize) -> (r: Option<(u64, usize)>)
    requires
        pos <= input@.len(),
    ensures
        match r {
            Some(p) => pos <= p.1 <= input@.len() && parse_u64(input@.skip(pos as int)) == Some(
                (p.0, input@.skip(p.1 as int)),
            ),
            None => parse_u64(input@.skip(pos as int)) is None,
        },
{
    let ghost s = input@.skip(pos as int);
    if pos >= input.len() || !is_digit_exec(input[pos]) {
        proof {
            if s.len() > 0 {
                assert(s[0] == input@[pos as int]);
            }
            assert(span_digits(s) == (Seq::<u8>::empty(), s));
            assert(dec_value(Seq::<u8>::empty()) is None);
        }
        return None;
    }
    let mut end: usize = pos + 1;
    proof {
        assert(s[0] == input@[pos as int]);
    }
    while end < input.len() && is_digit_exec(input[end])
        invariant
            pos < end <= input@.len(),
            s == input@.skip(pos as int),
            forall|j: int| 0 <= j < end - pos ==> is_digit(#[trigger] s[j]),
        decreases input@.len() - end,
    {
        proof {
            assert(s[end - pos] == input@[end as int]);
        }
        end = end + 1;
    }
    proof {
        assert(end - pos == s.len() || !is_digit(s[end - pos])) by {
            if end - pos < s.len() {
                assert(s[end - pos] == input@[end as int]);
            }
        }
        lemma_span_digits_split(s, end - pos);
    }
    let ghost ds = s.take(end - pos);
    proof {
        assert(s.skip(end - pos as int) =~= input@.skip(end as int));
    }
    let mut acc: u64 = (input[pos] - 0x30) as u64;
    let mut k: usize = 1;
    proof {
        assert(ds.len() == end - pos);
        assert(ds[0] == s[0]);
        assert(ds.take(1) =~= seq![ds[0]]);
        assert(dec_value(ds.take(1)) == Some(acc));
    }
    while k < end - pos
        invariant
            pos < end <= input@.len(),
            s == input@.skip(pos as int),
            span_digits(s) == (ds, input@.skip(end as int)),
            ds == s.take(end - pos as int),
            ds.len() == end - pos,
            forall|j: int| 0 <= j < ds.len() ==> ds[j] == s[j],
            forall|j: int| 0 <= j < end - pos ==> is_digit(#[trigger] s[j]),
            1 <= k <= ds.len(),
            dec_value(ds.take(k as int)) == Some(acc),
        decreases end - pos - k,
    {
        proof {
            assert(s[k as int] == input@[pos + k]);
            assert(is_digit(ds[k as int]));
        }
        let d = (input[pos + k] - 0x30) as u64;
        proof {
            assert(ds.take(k + 1 as int).drop_last() =~= ds.take(k as int));
            assert(ds.take(k + 1 as int).last() == ds[k as int]);
            assert(ds.take(k + 1 as int).len() >= 2);
        }
        if acc > (u64::MAX - d) / 10 {
            proof {
                assert(dec_value(ds.take(k + 1 as int)) is None);
                lemma_dec_value_none_extend(ds, k + 1);
            }
            return None;
        }
        proof {
            assert(acc <= (u64::MAX - d) / 10);
            assert(acc * 10 + d <= u64::MAX) by (nonlinear_arith)
                requires
                    acc <= (u64::MAX - d) / 10,
                    d <= 9,
            ;
        }
        acc = acc * 10 + d;
        k = k + 1;
    }
    proof {
        assert(ds.take(ds.len() as int) =~= ds);
        assert(dec_value(ds) == Some(acc));
        assert(s.skip(end - pos as int) =~= input@.skip(end as int));
    }
    Some((acc, end))
}

/// Parse a boolean literal at a position.
fn parse_bool_exec(input: &[u8], pos: usize) -> (r: Option<(bool, usize)>)
    requires
        pos <= input@.len(),
    ensures
        match r {
            Some(p) => pos <= p.1 <= input@.len() && parse_bool(input@.skip(pos as int)) == Some(
                (p.0, input@.skip(p.1 as int)),
            ),
            None => parse_bool(input@.skip(pos as int)) is None,
        },
{
    let ghost s = input@.skip(pos as int);
    if input.len() - pos >= 4 && input[pos] == 0x74 && input[pos + 1] == 0x72 && input[pos + 2]
        == 0x75 && input[pos + 3] == 0x65 {
        proof {
            assert(s.take(4) =~= tok_true());
            assert(s.skip(4) =~= input@.skip(pos + 4));
        }
        return Some((true, pos + 4));
    }
    if input.len() - pos >= 5 && input[pos] == 0x66 && input[pos + 1] == 0x61 && input[pos + 2]
        == 0x6c && input[pos + 3] == 0x73 && input[pos + 4] == 0x65 {
        proof {
            assert(!starts_with(s, tok_true())) by {
                if starts_with(s, tok_true()) {
                    assert(s.take(4)[0] == s[0]);
                    assert(s[0] == input@[pos as int]);
                }
            }
            assert(s.take(5) =~= tok_false());
            assert(s.skip(5) =~= input@.skip(pos + 5));
        }
        return Some((false, pos + 5));
    }
    proof {
        assert(!starts_with(s, tok_true())) by {
            if starts_with(s, tok_true()) {
                assert(s.len() >= 4);
                assert(s.take(4)[0] == s[0] && s.take(4)[1] == s[1] && s.take(4)[2] == s[2]
                    && s.take(4)[3] == s[3]);
                assert(s[0] == input@[pos as int] && s[1] == input@[pos + 1] && s[2] == input@[pos
                    + 2] && s[3] == input@[pos + 3]);
            }
        }
        assert(!starts_with(s, tok_false())) by {
            if starts_with(s, tok_false()) {
                assert(s.len() >= 5);
                assert(s.take(5)[0] == s[0] && s.take(5)[1] == s[1] && s.take(5)[2] == s[2]
                    && s.take(5)[3] == s[3] && s.take(5)[4] == s[4]);
                assert(s[0] == input@[pos as int] && s[1] == input@[pos + 1] && s[2] == input@[pos
                    + 2] && s[3] == input@[pos + 3] && s[4] == input@[pos + 4]);
            }
        }
    }
    None
}


/// Parse a name string at a position; its bytes must be valid UTF-8.
fn parse_name_exec(input: &[u8], pos: usize) -> (r: Option<(ClientString, usize)>)
    requires
        pos <= input@.len(),
    ensures
        match r {
            Some(p) => pos <= p.1 <= input@.len() && parse_name(input@.skip(pos as int)) == Some(
                (p.0@, input@.skip(p.1 as int)),
            ),
            None => parse_name(input@.skip(pos as int)) is None,
        },
{
    match parse_string_exec(input, pos) {
        None => None,
        Some((bytes, p2)) => match ClientString::from_encoded_checked(bytes) {
            None => None,
            Some(c) => Some((c, p2)),
        },
    }
}

/// Parse `null` or a name string at a position.
fn parse_opt_name_exec(input: &[u8], pos: usize) -> (r: Option<(Option<ClientString>, usize)>)
    requires
        pos <= input@.len(),
    ensures
        match r {
            Some(p) => pos <= p.1 <= input@.len() && parse_opt_name(input@.skip(pos as int))
                == Some((opt_cs_view(p.0), input@.skip(p.1 as int))),
            None => parse_opt_name(input@.skip(pos as int)) is None,
        },
{
    let null_tok = tok_vec_null();
    match eat_token(input, pos, &null_tok) {
        Some(p2) => {
            proof {
                assert(input@.skip(pos as int).skip(4) =~= input@.skip(pos + 4));
            }
            Some((None, p2))
        },
        None => match parse_name_exec(input, pos) {
            None => None,
            Some((c, p2)) => Some((Some(c), p2)),
        },
    }
}

/// The model of an optional parsed name.
pub open spec fn opt_cs_view(o: Option<ClientString>) -> Option<Seq<u8>> {
    match o {
        None => None,
        Some(c) => Some(c@),
    }
}

/// Parse one item at a position.
#[verifier::rlimit(100)]
#[verifier::spinoff_prover]
fn parse_item_exec(input: &[u8], pos: usize, fuel: usize) -> (r: Option<(LocalItem, usize)>)
    requires
        pos <= input@.len(),
    ensures
        match r {
            Some(p) => pos <= p.1 <= input@.len() && parse_item(input@.skip(pos as int), fuel as nat)
                == Some((p.0@, input@.skip(p.1 as int))),
            None => parse_item(input@.skip(pos as int), fuel as nat) is None,
        },
    decreases fuel,
{
    if fuel == 0 {
        return None;
    }
    let t_name = tok_vec_obj_name();
    let p1 = match eat_token(input, pos, &t_name) {
        None => {
            return None;
        },
        Some(p) => p,
    };
    let (name, p2) = match parse_name_exec(input, p1) {
        None => {
            return None;
        },
        Some(v) => v,
    };
    let t_isf = tok_vec_is_file();
    let p3 = match eat_token(input, p2, &t_isf) {
        None => {
            return None;
        },
        Some(p) => p,
    };
    let (isf, p4) = match parse_bool_exec(input, p3) {
        None => {
            return None;
        },
        Some(v) => v,
    };
    let t_ts = tok_vec_ts();
    let p5 = match eat_token(input, p4, &t_ts) {
        None => {
            return None;
        },
        Some(p) => p,
    };
    let (ts, p6) = match parse_u64_exec(input, p5) {
        None => {
            return None;
        },
        Some(v) => v,
    };
    let t_mime = tok_vec_mime();
    let p7 = match eat_token(input, p6, &t_mime) {
        None => {
            return None;
        },
        Some(p) => p,
    };
    let (mime, p8) = match parse_opt_name_exec(input, p7) {
        None => {
            return None;
        },
        Some(v) => v,
    };
    let t_size = tok_vec_size();
    let p9 = match eat_token(input, p8, &t_size) {
        None => {
            return None;
        },
        Some(p) => p,
    };
    let (size, p10) = match parse_u64_exec(input, p9) {
        None => {
            return None;
        },
        Some(v) => v,
    };
    let t_children = tok_vec_children();
    let p11 = match eat_token(input, p10, &t_children) {
        None => {
            return None;
        },
        Some(p) => p,
    };
    let (children, p12) = match parse_forest_exec(input, p11, fuel - 1) {
        None => {
            return None;
        },
        Some(v) => v,
    };
    let mut rb: Vec<u8> = Vec::new();
    rb.push(0x7d);
    proof {
        assert(rb@ =~= seq![0x7du8]);
    }
    let p13 = match eat_token(input, p12, &rb) {
        None => {
            return None;
        },
        Some(p) => p,
    };
    let item = LocalItem {
        name,
        is_regular_file: isf,
        timestamp: ts,
        mime_type: mime,
        size,
        children,
    };
    proof {
        assert(forest_model(item.children@) == item@.children);
        assert(item@ == (ItemModel {
            name: item.name@,
            is_regular_file: isf,
            timestamp: ts,
            mime_type: opt_cs_view(item.mime_type),
            size,
            children: forest_model(item.children@),
        }));
    }
    Some((item, p13))
}

/// Parse a forest at a position.
fn parse_forest_exec(input: &[u8], pos: usize, fuel: usize) -> (r: Option<(Vec<LocalItem>, usize)>)
    requires
        pos <= input@.len(),
    ensures
        match r {
            Some(p) => pos <= p.1 <= input@.len() && parse_forest(
                input@.skip(pos as int),
                fuel as nat,
            ) == Some((forest_model(p.0@), input@.skip(p.1 as int))),
            None => parse_forest(input@.skip(pos as int), fuel as nat) is None,
        },
    decreases fuel,
{
    if fuel == 0 {
        return None;
    }
    let mut lb: Vec<u8> = Vec::new();
    lb.push(0x5b);
    proof {
        assert(lb@ =~= seq![0x5bu8]);
    }
    let p1 = match eat_token(input, pos, &lb) {
        None => {
            return None;
        },
        Some(p) => p,
    };
    let ghost s1 = input@.skip(p1 as int);
    if p1 < input.len() && input[p1] == 0x5d {
        proof {
            assert(s1[0] == input@[p1 as int]);
            assert(starts_with(s1, seq![0x5du8])) by {
                assert(s1.take(1) =~= seq![0x5du8]);
            }
            assert(s1.skip(1) =~= input@.skip(p1 + 1));
            assert(forest_model(Seq::<LocalItem>::empty()) =~= Seq::<ItemModel>::empty());
        }
        let empty_vec: Vec<LocalItem> = Vec::new();
        return Some((empty_vec, p1 + 1));
    }
    proof {
        assert(!starts_with(s1, seq![0x5du8])) by {
            if starts_with(s1, seq![0x5du8]) {
                assert(s1.take(1)[0] == s1[0]);
                assert(s1[0] == input@[p1 as int]);
            }
        }
    }
    let (items, p2) = match parse_items_exec(input, p1, fuel - 1) {
        None => {
            return None;
        },
        Some(v) => v,
    };
    let mut rbk: Vec<u8> = Vec::new();
    rbk.push(0x5d);
    proof {
        assert(rbk@ =~= seq![0x5du8]);
    }
    let p3 = match eat_token(input, p2, &rbk) {
        None => {
            return None;
        },
        Some(p) => p,
    };
    Some((items, p3))
}

fn parse_items_exec(input: &[u8], pos: usize, fuel: usize) -> (r: Option<(Vec<LocalItem>, usize)>)
    requires
        pos <= input@.len(),
    ensures
        match r {
            Some(p) => pos <= p.1 <= input@.len() && parse_items(
                input@.skip(pos as int),
                fuel as nat,
            ) == Some((forest_model(p.0@), input@.skip(p.1 as int))),
            None => parse_items(input@.skip(pos as int), fuel as nat) is None,
        },
    decreases fuel,
{
    if fuel == 0 {
        return None;
    }
    let (item, p1) = match parse_item_exec(input, pos, fuel - 1) {
        None => {
            return None;
        },
        Some(v) => v,
    };
    let ghost s1 = input@.skip(p1 as int);
    if p1 < input.len() && input[p1] == 0x2c {
        proof {
            assert(s1[0] == input@[p1 as int]);
            assert(starts_with(s1, seq![0x2cu8])) by {
                assert(s1.take(1) =~= seq![0x2cu8]);
            }
            assert(s1.skip(1) =~= input@.skip(p1 + 1));
        }
        let (mut rest, p2) = match parse_items_exec(input, p1 + 1, fuel - 1) {
            None => {
                return None;
            },
            Some(v) => v,
        };
        let ghost rest_pre = rest@;
        let mut out: Vec<LocalItem> = Vec::new();
        out.push(item);
        out.append(&mut rest);
        proof {
            lemma_forest_model(out@);
            lemma_forest_model(rest_pre);
            assert(forest_model(out@) =~= seq![item_model(out@[0])] + forest_model(rest_pre));
        }
        Some((out, p2))
    } else {
        proof {
            assert(!starts_with(s1, seq![0x2cu8])) by {
                if starts_with(s1, seq![0x2cu8]) {
                    assert(s1.take(1)[0] == s1[0]);
                    if p1 < input@.len() {
                        assert(s1[0] == input@[p1 as int]);
                    }
                }
            }
        }
        let mut out: Vec<LocalItem> = Vec::new();
        out.push(item);
        proof {
            lemma_forest_model(out@);
            assert(forest_model(out@) =~= seq![item_model(out@[0])]);
        }
        Some((out, p1))
    }
}

/// Read a snapshot tree back from canonical bytes; `None` for
/// anything but the canonical form.
pub fn load(bytes: &[u8]) -> (r: Option<LocalFilesystem>)
    requires
        bytes@.len() + 2 <= usize::MAX,
    ensures
        match r {
            Some(fs) => load_spec(bytes@) == Some(fs@),
            None => load_spec(bytes@) is None,
        },
{
    let t_roots = tok_vec_roots();
    proof {
        assert(bytes@.skip(0) =~= bytes@);
    }
    let p1 = match eat_token(bytes, 0, &t_roots) {
        None => {
            return None;
        },
        Some(p) => p,
    };
    let fuel = bytes.len() + 2;
    let (items, p2) = match parse_forest_exec(bytes, p1, fuel) {
        None => {
            return None;
        },
        Some(v) => v,
    };
    let mut rb: Vec<u8> = Vec::new();
    rb.push(0x7d);
    proof {
        assert(rb@ =~= seq![0x7du8]);
    }
    let p3 = match eat_token(bytes, p2, &rb) {
        None => {
            return None;
        },
        Some(p) => p,
    };
    if p3 != bytes.len() {
        proof {
            assert(bytes@.skip(p3 as int).len() > 0);
        }
        return None;
    }
    proof {
        assert(bytes@.skip(p3 as int).len() == 0);
    }
    Some(LocalFilesystem::from_roots(items))
}

} // verus!
