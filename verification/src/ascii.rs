//! Scalars in the ASCII format: whitespace-separated tokens, and the integer types
//! written and read in decimal.

use vstd::prelude::*;
use crate::error::{DeserializeCause, DeserializeError};
use crate::scalar::{is_float_type, ScalarType};
use crate::text::{
    all_digits, ascii_ws, copy_range, decimal, digits_value, is_ascii_ws, is_digit, lemma_decimal,
    lemma_decimal_roundtrip, parse_digits, push_decimal, signed_decimal, signed_value,
    unsigned_value,
};
use crate::value::{int_value, value_type, ScalarValue};

verus! {

/// The first position at or after `pos` that holds no ASCII whitespace, or the end.
pub open spec fn skip_ascii_ws(s: Seq<u8>, pos: nat) -> nat
    decreases s.len() - pos,
{
    if pos >= s.len() {
        pos
    } else if is_ascii_ws(s[pos as int]) {
        skip_ascii_ws(s, pos + 1)
    } else {
        pos
    }
}

/// The first position at or after `pos` that holds ASCII whitespace, or the end.
pub open spec fn token_end(s: Seq<u8>, pos: nat) -> nat
    decreases s.len() - pos,
{
    if pos >= s.len() {
        pos
    } else if is_ascii_ws(s[pos as int]) {
        pos
    } else {
        token_end(s, pos + 1)
    }
}

/// The next token at or after `pos` and the position after the whitespace byte that
/// ends it. `None` when the data ends first: a token must be followed by whitespace.
pub open spec fn ascii_token(s: Seq<u8>, pos: nat) -> Option<(Seq<u8>, nat)> {
    let i = skip_ascii_ws(s, pos);
    if i >= s.len() {
        None
    } else {
        let j = token_end(s, i);
        if j >= s.len() {
            None
        } else {
            Some((s.subrange(i as int, j as int), j + 1))
        }
    }
}

pub proof fn lemma_skip_bounds(s: Seq<u8>, pos: nat)
    requires
        pos <= s.len(),
    ensures
        pos <= skip_ascii_ws(s, pos) <= s.len(),
        forall|m: int| pos <= m < skip_ascii_ws(s, pos) ==> is_ascii_ws(#[trigger] s[m]),
        skip_ascii_ws(s, pos) < s.len() ==> !is_ascii_ws(s[skip_ascii_ws(s, pos) as int]),
    decreases s.len() - pos,
{
    if pos < s.len() && is_ascii_ws(s[pos as int]) {
        lemma_skip_bounds(s, pos + 1);
    }
}

pub proof fn lemma_token_end_bounds(s: Seq<u8>, pos: nat)
    requires
        pos <= s.len(),
    ensures
        pos <= token_end(s, pos) <= s.len(),
        forall|m: int| pos <= m < token_end(s, pos) ==> !is_ascii_ws(#[trigger] s[m]),
        token_end(s, pos) < s.len() ==> is_ascii_ws(s[token_end(s, pos) as int]),
    decreases s.len() - pos,
{
    if pos < s.len() && !is_ascii_ws(s[pos as int]) {
        lemma_token_end_bounds(s, pos + 1);
    }
}

/// Reads ASCII values: whitespace-separated tokens.
pub struct AsciiValReader {}

impl AsciiValReader {
    pub fn new() -> (r: AsciiValReader) {
        AsciiValReader {  }
    }

    /// Reads the next token at or after `pos`: the token and the position after the
    /// whitespace byte that ends it. The data ending first is an unexpected end.
    pub fn read_ascii_token(data: &[u8], pos: usize) -> (r: Result<(Vec<u8>, usize), DeserializeError>)
        requires
            pos <= data@.len(),
        ensures
            match ascii_token(data@, pos as nat) {
                Some((t, next)) => r matches Ok((tok, n)) && tok@ == t && n == next,
                None => r is Err && r->Err_0 == DeserializeError(DeserializeCause::UnexpectedEof),
            },
    {
        let mut i = pos;
        while i < data.len() && ascii_ws(data[i])
            invariant
                pos <= i <= data@.len(),
                skip_ascii_ws(data@, pos as nat) == skip_ascii_ws(data@, i as nat),
            decreases data@.len() - i,
        {
            i = i + 1;
        }
        if i >= data.len() {
            return Err(DeserializeError(DeserializeCause::UnexpectedEof));
        }
        let mut j = i;
        while j < data.len() && !ascii_ws(data[j])
            invariant
                i <= j <= data@.len(),
                token_end(data@, i as nat) == token_end(data@, j as nat),
            decreases data@.len() - j,
        {
            j = j + 1;
        }
        if j >= data.len() {
            return Err(DeserializeError(DeserializeCause::UnexpectedEof));
        }
        let tok = copy_range(data, i, j);
        Ok((tok, j + 1))
    }
}

/// The integer of type `t` that a token writes, as `str::parse` reads it: an
/// optional sign (only `+` for the unsigned types) and decimal digits, in range.
pub open spec fn ascii_int(t: ScalarType, tok: Seq<u8>) -> Option<ScalarValue> {
    match t {
        ScalarType::I8 => match signed_value(tok) {
            Some(n) => if -0x80 <= n <= 0x7f {
                Some(ScalarValue::I8(n as i8))
            } else {
                None
            },
            None => None,
        },
        ScalarType::U8 => match unsigned_value(tok) {
            Some(n) => if n <= 0xff {
                Some(ScalarValue::U8(n as u8))
            } else {
                None
            },
            None => None,
        },
        ScalarType::I16 => match signed_value(tok) {
            Some(n) => if -0x8000 <= n <= 0x7fff {
                Some(ScalarValue::I16(n as i16))
            } else {
                None
            },
            None => None,
        },
        ScalarType::U16 => match unsigned_value(tok) {
            Some(n) => if n <= 0xffff {
                Some(ScalarValue::U16(n as u16))
            } else {
                None
            },
            None => None,
        },
        ScalarType::I32 => match signed_value(tok) {
            Some(n) => if -0x8000_0000 <= n <= 0x7fff_ffff {
                Some(ScalarValue::I32(n as i32))
            } else {
                None
            },
            None => None,
        },
        ScalarType::U32 => match unsigned_value(tok) {
            Some(n) => if n <= 0xffff_ffff {
                Some(ScalarValue::U32(n as u32))
            } else {
                None
            },
            None => None,
        },
        _ => None,
    }
}

/// The decimal text of an integer scalar, as `Display` writes it.
pub open spec fn int_text(v: ScalarValue) -> Seq<u8> {
    signed_decimal(int_value(v))
}

/// Reads a number in `[-(neg_limit), pos_limit]` from a token: `-` is only
/// accepted when `neg_limit > 0`.
fn parse_ranged(tok: &[u8], neg_limit: u64, pos_limit: u64) -> (r: Option<i64>)
    requires
        neg_limit <= 0x8000_0000,
        pos_limit <= 0xffff_ffff,
    ensures
        neg_limit > 0 ==> r == match signed_value(tok@) {
            Some(n) => if -(neg_limit as int) <= n <= pos_limit {
                Some(n as i64)
            } else {
                None::<i64>
            },
            None => None::<i64>,
        },
        neg_limit == 0 ==> r == match unsigned_value(tok@) {
            Some(n) => if n <= pos_limit {
                Some(n as i64)
            } else {
                None::<i64>
            },
            None => None::<i64>,
        },
{
    if neg_limit > 0 && tok.len() > 0 && tok[0] == 45u8 {
        match parse_digits(tok, 1, neg_limit) {
            Some(v) => {
                assert(tok@.skip(1) =~= tok@.drop_first());
                Some(-(v as i64))
            },
            None => {
                assert(tok@.skip(1) =~= tok@.drop_first());
                None
            },
        }
    } else {
        let start: usize = if tok.len() > 0 && tok[0] == 43u8 {
            1
        } else {
            0
        };
        assert(tok@.skip(start as int) =~= (if tok@.len() > 0 && tok@[0] == 43 {
            tok@.drop_first()
        } else {
            tok@
        }));
        match parse_digits(tok, start, pos_limit) {
            Some(v) => Some(v as i64),
            None => None,
        }
    }
}

/// Reads an integer of type `t` from a token.
pub fn parse_int(t: ScalarType, tok: &[u8]) -> (r: Option<ScalarValue>)
    requires
        !is_float_type(t),
    ensures
        r == ascii_int(t, tok@),
{
    match t {
        ScalarType::I8 => match parse_ranged(tok, 0x80, 0x7f) {
            Some(n) => Some(ScalarValue::I8(n as i8)),
            None => None,
        },
        ScalarType::U8 => match parse_ranged(tok, 0, 0xff) {
            Some(n) => Some(ScalarValue::U8(n as u8)),
            None => None,
        },
        ScalarType::I16 => match parse_ranged(tok, 0x8000, 0x7fff) {
            Some(n) => Some(ScalarValue::I16(n as i16)),
            None => None,
        },
        ScalarType::U16 => match parse_ranged(tok, 0, 0xffff) {
            Some(n) => Some(ScalarValue::U16(n as u16)),
            None => None,
        },
        ScalarType::I32 => match parse_ranged(tok, 0x8000_0000, 0x7fff_ffff) {
            Some(n) => Some(ScalarValue::I32(n as i32)),
            None => None,
        },
        ScalarType::U32 => match parse_ranged(tok, 0, 0xffff_ffff) {
            Some(n) => Some(ScalarValue::U32(n as u32)),
            None => None,
        },
        _ => None,
    }
}

/// Appends the decimal text of an integer scalar.
pub fn push_int(out: &mut Vec<u8>, v: ScalarValue)
    requires
        !is_float_type(value_type(v)),
    ensures
        final(out)@ == old(out)@ + int_text(v),
{
    let n: i64 = match v {
        ScalarValue::I8(x) => x as i64,
        ScalarValue::U8(x) => x as i64,
        ScalarValue::I16(x) => x as i64,
        ScalarValue::U16(x) => x as i64,
        ScalarValue::I32(x) => x as i64,
        ScalarValue::U32(x) => x as i64,
        _ => 0,
    };
    assert(n == int_value(v));
    if n < 0 {
        out.push(45u8);
        push_decimal(out, (-n) as u64);
        assert(final(out)@ =~= old(out)@ + int_text(v));
    } else {
        push_decimal(out, n as u64);
    }
}

/// An integer written in decimal reads back as itself.
pub proof fn lemma_int_text_roundtrip(v: ScalarValue)
    requires
        !is_float_type(value_type(v)),
    ensures
        ascii_int(value_type(v), int_text(v)) == Some(v),
{
    lemma_decimal_roundtrip(int_value(v));
}

/// The decimal text of an integer is a non-empty token: it holds no whitespace.
pub proof fn lemma_int_text_token(v: ScalarValue)
    ensures
        int_text(v).len() > 0,
        forall|i: int| 0 <= i < int_text(v).len() ==> !is_ascii_ws(#[trigger] int_text(v)[i]),
{
    let n = int_value(v);
    let t = int_text(v);
    if n < 0 {
        lemma_decimal((-n) as nat);
        assert forall|i: int| 0 <= i < t.len() implies !is_ascii_ws(#[trigger] t[i]) by {
            if i > 0 {
                assert(t[i] == decimal((-n) as nat)[i - 1]);
                assert(is_digit(decimal((-n) as nat)[i - 1]));
            }
        }
    } else {
        lemma_decimal(n as nat);
        assert forall|i: int| 0 <= i < t.len() implies !is_ascii_ws(#[trigger] t[i]) by {
            assert(is_digit(t[i]));
        }
    }
}

} // verus!
