//! Reading rows in pieces gives the rows that reading all the data at once gives.

use vstd::prelude::*;
use crate::ascii::{ascii_token, skip_ascii_ws, token_end};
use crate::error::DeserializeCause;
use crate::header::PropertyType;
use crate::row::{
    decode_available, decode_cell, decode_items, decode_row, decode_rows, decode_value, prepend,
};
use crate::scalar::{scalar_size, PlyFormat, ScalarType};
use crate::value::{count_of, float_count, CellModel, ValueModel};

verus! {

/// `r` with its end position moved `d` bytes further.
pub open spec fn shifted<A>(r: Result<(A, nat), DeserializeCause>, d: nat) -> Result<(A, nat), DeserializeCause> {
    match r {
        Ok((x, e)) => Ok((x, e + d)),
        Err(c) => Err(c),
    }
}

// ---------------------------------------------------------------------------
// Reading after dropping the first `d` bytes is reading `d` bytes further on.
proof fn lemma_skip_ws_shift(s: Seq<u8>, d: nat, pos: nat)
    requires
        d <= s.len(),
        pos <= s.len() - d,
    ensures
        skip_ascii_ws(s.skip(d as int), pos) + d == skip_ascii_ws(s, pos + d),
    decreases s.len() - d - pos,
{
    if pos < s.len() - d {
        assert(s.skip(d as int)[pos as int] == s[(pos + d) as int]);
        lemma_skip_ws_shift(s, d, pos + 1);
    }
}

proof fn lemma_token_end_shift(s: Seq<u8>, d: nat, pos: nat)
    requires
        d <= s.len(),
        pos <= s.len() - d,
    ensures
        token_end(s.skip(d as int), pos) + d == token_end(s, pos + d),
    decreases s.len() - d - pos,
{
    if pos < s.len() - d {
        assert(s.skip(d as int)[pos as int] == s[(pos + d) as int]);
        lemma_token_end_shift(s, d, pos + 1);
    }
}

proof fn lemma_token_shift(s: Seq<u8>, d: nat, pos: nat)
    requires
        d <= s.len(),
        pos <= s.len() - d,
    ensures
        ascii_token(s, pos + d) == match ascii_token(s.skip(d as int), pos) {
            Some((t, n)) => Some((t, n + d)),
            None => None::<(Seq<u8>, nat)>,
        },
{
    let u = s.skip(d as int);
    lemma_skip_ws_shift(s, d, pos);
    crate::ascii::lemma_skip_bounds(u, pos);
    let i = skip_ascii_ws(u, pos);
    if i < u.len() {
        lemma_token_end_shift(s, d, i);
        crate::ascii::lemma_token_end_bounds(u, i);
        let j = token_end(u, i);
        if j < u.len() {
            assert(u.subrange(i as int, j as int) =~= s.subrange((i + d) as int, (j + d) as int));
        }
    }
}

proof fn lemma_cell_shift(f: PlyFormat, t: ScalarType, s: Seq<u8>, d: nat, pos: nat)
    requires
        d <= s.len(),
        pos <= s.len() - d,
    ensures
        decode_cell(f, t, s, pos + d) == shifted(decode_cell(f, t, s.skip(d as int), pos), d),
{
    if f == PlyFormat::Ascii {
        lemma_token_shift(s, d, pos);
    } else {
        let u = s.skip(d as int);
        if pos + scalar_size(t) <= u.len() {
            assert(u.subrange(pos as int, (pos + scalar_size(t)) as int) =~= s.subrange(
                (pos + d) as int,
                (pos + d + scalar_size(t)) as int,
            ));
        }
    }
}

proof fn lemma_items_shift(f: PlyFormat, t: ScalarType, s: Seq<u8>, d: nat, pos: nat, n: nat)
    requires
        d <= s.len(),
        pos <= s.len() - d,
    ensures
        decode_items(f, t, s, pos + d, n) == shifted(decode_items(f, t, s.skip(d as int), pos, n), d),
    decreases n,
{
    if n > 0 {
        lemma_cell_shift(f, t, s, d, pos);
        crate::row::lemma_decode_cell_advances(f, t, s.skip(d as int), pos);
        match decode_cell(f, t, s.skip(d as int), pos) {
            Ok((c, p)) => {
                lemma_items_shift(f, t, s, d, p, (n - 1) as nat);
            },
            Err(_) => {},
        }
    }
}

proof fn lemma_value_shift(f: PlyFormat, pt: PropertyType, s: Seq<u8>, d: nat, pos: nat)
    requires
        d <= s.len(),
        pos <= s.len() - d,
    ensures
        decode_value(f, pt, s, pos + d) == shifted(decode_value(f, pt, s.skip(d as int), pos), d),
{
    match pt {
        PropertyType::Scalar(t) => {
            lemma_cell_shift(f, t, s, d, pos);
        },
        PropertyType::List { count_type, data_type } => {
            lemma_cell_shift(f, count_type, s, d, pos);
            crate::row::lemma_decode_cell_advances(f, count_type, s.skip(d as int), pos);
            match decode_cell(f, count_type, s.skip(d as int), pos) {
                Ok((CellModel::Num(v), p)) => {
                    if let Some(n) = count_of(v) {
                        lemma_items_shift(f, data_type, s, d, p, n as nat);
                    }
                },
                Ok((CellModel::Text(_, tok), p)) => {
                    if let Some(n) = float_count(count_type, tok) {
                        lemma_items_shift(f, data_type, s, d, p, n as nat);
                    }
                },
                _ => {},
            }
        },
    }
}

proof fn lemma_row_shift(f: PlyFormat, props: Seq<PropertyType>, s: Seq<u8>, d: nat, pos: nat)
    requires
        d <= s.len(),
        pos <= s.len() - d,
    ensures
        decode_row(f, props, s, pos + d) == shifted(decode_row(f, props, s.skip(d as int), pos), d),
    decreases props.len(),
{
    if props.len() > 0 {
        lemma_value_shift(f, props[0], s, d, pos);
        crate::row::lemma_value_bounds(f, props[0], s.skip(d as int), pos);
        match decode_value(f, props[0], s.skip(d as int), pos) {
            Ok((v, p)) => {
                lemma_row_shift(f, props.drop_first(), s, d, p);
            },
            Err(_) => {},
        }
    }
}

/// Reading rows after dropping the first `d` bytes is reading them `d` bytes further on.
pub proof fn lemma_available_shift(f: PlyFormat, props: Seq<PropertyType>, s: Seq<u8>, d: nat, pos: nat, n: nat)
    requires
        d <= s.len(),
        pos <= s.len() - d,
    ensures
        decode_available(f, props, s, pos + d, n) == shifted(
            decode_available(f, props, s.skip(d as int), pos, n),
            d,
        ),
    decreases n,
{
    if n > 0 {
        lemma_row_shift(f, props, s, d, pos);
        crate::row::lemma_row_bounds(f, props, s.skip(d as int), pos);
        match decode_row(f, props, s.skip(d as int), pos) {
            Ok((r, p)) => {
                lemma_available_shift(f, props, s, d, p, (n - 1) as nat);
            },
            Err(_) => {},
        }
    }
}

// ---------------------------------------------------------------------------
// What was read whole is read the same way when more data follows.
proof fn lemma_skip_ws_extend(s: Seq<u8>, t: Seq<u8>, pos: nat)
    requires
        pos <= s.len(),
        skip_ascii_ws(s, pos) < s.len(),
    ensures
        skip_ascii_ws(s + t, pos) == skip_ascii_ws(s, pos),
    decreases s.len() - pos,
{
    assert((s + t)[pos as int] == s[pos as int]);
    if crate::text::is_ascii_ws(s[pos as int]) {
        lemma_skip_ws_extend(s, t, pos + 1);
    }
}

proof fn lemma_token_end_extend(s: Seq<u8>, t: Seq<u8>, pos: nat)
    requires
        pos <= s.len(),
        token_end(s, pos) < s.len(),
    ensures
        token_end(s + t, pos) == token_end(s, pos),
    decreases s.len() - pos,
{
    assert((s + t)[pos as int] == s[pos as int]);
    if !crate::text::is_ascii_ws(s[pos as int]) {
        lemma_token_end_extend(s, t, pos + 1);
    }
}

proof fn lemma_cell_extend(f: PlyFormat, ty: ScalarType, s: Seq<u8>, t: Seq<u8>, pos: nat)
    requires
        pos <= s.len(),
        decode_cell(f, ty, s, pos) is Ok,
    ensures
        decode_cell(f, ty, s + t, pos) == decode_cell(f, ty, s, pos),
{
    if f == PlyFormat::Ascii {
        crate::ascii::lemma_skip_bounds(s, pos);
        lemma_skip_ws_extend(s, t, pos);
        let i = skip_ascii_ws(s, pos);
        crate::ascii::lemma_token_end_bounds(s, i);
        lemma_token_end_extend(s, t, i);
        let j = token_end(s, i);
        assert((s + t).subrange(i as int, j as int) =~= s.subrange(i as int, j as int));
    } else {
        assert((s + t).subrange(pos as int, (pos + scalar_size(ty)) as int) =~= s.subrange(
            pos as int,
            (pos + scalar_size(ty)) as int,
        ));
    }
}

proof fn lemma_items_extend(f: PlyFormat, ty: ScalarType, s: Seq<u8>, t: Seq<u8>, pos: nat, n: nat)
    requires
        pos <= s.len(),
        decode_items(f, ty, s, pos, n) is Ok,
    ensures
        decode_items(f, ty, s + t, pos, n) == decode_items(f, ty, s, pos, n),
    decreases n,
{
    if n > 0 {
        lemma_cell_extend(f, ty, s, t, pos);
        crate::row::lemma_decode_cell_advances(f, ty, s, pos);
        let p = decode_cell(f, ty, s, pos)->Ok_0.1;
        lemma_items_extend(f, ty, s, t, p, (n - 1) as nat);
    }
}

proof fn lemma_value_extend(f: PlyFormat, pt: PropertyType, s: Seq<u8>, t: Seq<u8>, pos: nat)
    requires
        pos <= s.len(),
        decode_value(f, pt, s, pos) is Ok,
    ensures
        decode_value(f, pt, s + t, pos) == decode_value(f, pt, s, pos),
{
    match pt {
        PropertyType::Scalar(ty) => {
            lemma_cell_extend(f, ty, s, t, pos);
        },
        PropertyType::List { count_type, data_type } => {
            lemma_cell_extend(f, count_type, s, t, pos);
            crate::row::lemma_decode_cell_advances(f, count_type, s, pos);
            match decode_cell(f, count_type, s, pos) {
                Ok((CellModel::Num(v), p)) => {
                    if let Some(n) = count_of(v) {
                        lemma_items_extend(f, data_type, s, t, p, n as nat);
                    }
                },
                Ok((CellModel::Text(_, tok), p)) => {
                    if let Some(n) = float_count(count_type, tok) {
                        lemma_items_extend(f, data_type, s, t, p, n as nat);
                    }
                },
                _ => {},
            }
        },
    }
}

proof fn lemma_row_extend(f: PlyFormat, props: Seq<PropertyType>, s: Seq<u8>, t: Seq<u8>, pos: nat)
    requires
        pos <= s.len(),
        decode_row(f, props, s, pos) is Ok,
    ensures
        decode_row(f, props, s + t, pos) == decode_row(f, props, s, pos),
    decreases props.len(),
{
    if props.len() > 0 {
        lemma_value_extend(f, props[0], s, t, pos);
        crate::row::lemma_value_bounds(f, props[0], s, pos);
        let p = decode_value(f, props[0], s, pos)->Ok_0.1;
        lemma_row_extend(f, props.drop_first(), s, t, p);
    }
}

/// Rows read whole from data read the same way when more data follows: reading the
/// longer data reads them, then goes on where they end.
pub proof fn lemma_available_extend(f: PlyFormat, props: Seq<PropertyType>, s: Seq<u8>, t: Seq<u8>, pos: nat, n: nat)
    requires
        pos <= s.len(),
        decode_available(f, props, s, pos, n) is Ok,
    ensures
        ({
            let (rows, p) = decode_available(f, props, s, pos, n)->Ok_0;
            decode_available(f, props, s + t, pos, n) == prepend(
                rows,
                decode_available(f, props, s + t, p, (n - rows.len()) as nat),
            )
        }),
    decreases n,
{
    let (rows, p) = decode_available(f, props, s, pos, n)->Ok_0;
    if n == 0 {
        assert(rows =~= Seq::<Seq<ValueModel>>::empty());
        assert(p == pos);
        match decode_available(f, props, s + t, p, 0) {
            Ok((xs, e)) => {
                assert(rows + xs =~= xs);
            },
            Err(_) => {},
        }
    } else {
        match decode_row(f, props, s, pos) {
            Ok((r, p1)) => {
                lemma_row_extend(f, props, s, t, pos);
                crate::row::lemma_row_bounds(f, props, s, pos);
                lemma_available_extend(f, props, s, t, p1, (n - 1) as nat);
                let (rest, p2) = decode_available(f, props, s, p1, (n - 1) as nat)->Ok_0;
                assert(rows == seq![r] + rest);
                assert(p == p2);
                match decode_available(f, props, s + t, p, (n - rows.len()) as nat) {
                    Ok((xs, e)) => {
                        assert(seq![r] + (rest + xs) =~= rows + xs);
                    },
                    Err(_) => {},
                }
            },
            Err(_) => {
                assert(rows =~= Seq::<Seq<ValueModel>>::empty());
                assert(p == pos);
                match decode_available(f, props, s + t, p, n) {
                    Ok((xs, e)) => {
                        assert(rows + xs =~= xs);
                    },
                    Err(_) => {},
                }
            },
        }
    }
}

/// Reading in pieces: the rows that the buffer `s` holds whole, then, once they have
/// left the buffer and more data `t` has arrived, the rows that the rest holds, are
/// the rows that reading `s` and `t` at once gives, and end where they end.
pub proof fn lemma_read_in_pieces(f: PlyFormat, props: Seq<PropertyType>, s: Seq<u8>, t: Seq<u8>, n: nat)
    requires
        decode_available(f, props, s, 0, n) is Ok,
    ensures
        ({
            let (rows, p) = decode_available(f, props, s, 0, n)->Ok_0;
            decode_available(f, props, s + t, 0, n) == prepend(
                rows,
                shifted(decode_available(f, props, s.skip(p as int) + t, 0, (n - rows.len()) as nat), p),
            )
        }),
{
    let (rows, p) = decode_available(f, props, s, 0, n)->Ok_0;
    crate::row::lemma_available_bounds(f, props, s, 0, n);
    lemma_available_extend(f, props, s, t, 0, n);
    assert((s + t).skip(p as int) =~= s.skip(p as int) + t);
    lemma_available_shift(f, props, s + t, p, 0, (n - rows.len()) as nat);
}


// ---------------------------------------------------------------------------
// What fails on data, other than by running out of it, fails the same way when
// more data follows.
proof fn lemma_cell_err_extend(f: PlyFormat, ty: ScalarType, s: Seq<u8>, t: Seq<u8>, pos: nat)
    requires
        pos <= s.len(),
        decode_cell(f, ty, s, pos) is Err,
        decode_cell(f, ty, s, pos) != Err::<(CellModel, nat), DeserializeCause>(DeserializeCause::UnexpectedEof),
    ensures
        decode_cell(f, ty, s + t, pos) == decode_cell(f, ty, s, pos),
{
    if f == PlyFormat::Ascii {
        crate::ascii::lemma_skip_bounds(s, pos);
        let i = skip_ascii_ws(s, pos);
        lemma_skip_ws_extend(s, t, pos);
        crate::ascii::lemma_token_end_bounds(s, i);
        lemma_token_end_extend(s, t, i);
        let j = token_end(s, i);
        assert((s + t).subrange(i as int, j as int) =~= s.subrange(i as int, j as int));
    }
}

proof fn lemma_items_err_extend(f: PlyFormat, ty: ScalarType, s: Seq<u8>, t: Seq<u8>, pos: nat, n: nat)
    requires
        pos <= s.len(),
        decode_items(f, ty, s, pos, n) is Err,
        decode_items(f, ty, s, pos, n) != Err::<(Seq<CellModel>, nat), DeserializeCause>(
            DeserializeCause::UnexpectedEof,
        ),
    ensures
        decode_items(f, ty, s + t, pos, n) == decode_items(f, ty, s, pos, n),
    decreases n,
{
    if n > 0 {
        match decode_cell(f, ty, s, pos) {
            Err(_) => {
                lemma_cell_err_extend(f, ty, s, t, pos);
            },
            Ok((c, p)) => {
                lemma_cell_extend(f, ty, s, t, pos);
                crate::row::lemma_decode_cell_advances(f, ty, s, pos);
                lemma_items_err_extend(f, ty, s, t, p, (n - 1) as nat);
            },
        }
    }
}

proof fn lemma_value_err_extend(f: PlyFormat, pt: PropertyType, s: Seq<u8>, t: Seq<u8>, pos: nat)
    requires
        pos <= s.len(),
        decode_value(f, pt, s, pos) is Err,
        decode_value(f, pt, s, pos) != Err::<(ValueModel, nat), DeserializeCause>(DeserializeCause::UnexpectedEof),
    ensures
        decode_value(f, pt, s + t, pos) == decode_value(f, pt, s, pos),
{
    match pt {
        PropertyType::Scalar(ty) => {
            lemma_cell_err_extend(f, ty, s, t, pos);
        },
        PropertyType::List { count_type, data_type } => {
            match decode_cell(f, count_type, s, pos) {
                Err(_) => {
                    lemma_cell_err_extend(f, count_type, s, t, pos);
                },
                Ok((c, p)) => {
                    lemma_cell_extend(f, count_type, s, t, pos);
                    crate::row::lemma_decode_cell_advances(f, count_type, s, pos);
                    match c {
                        CellModel::Num(v) => {
                            if let Some(n) = count_of(v) {
                                lemma_items_err_extend(f, data_type, s, t, p, n as nat);
                            }
                        },
                        CellModel::Text(_, tok) => {
                            if let Some(n) = float_count(count_type, tok) {
                                lemma_items_err_extend(f, data_type, s, t, p, n as nat);
                            }
                        },
                    }
                },
            }
        },
    }
}

proof fn lemma_row_err_extend(f: PlyFormat, props: Seq<PropertyType>, s: Seq<u8>, t: Seq<u8>, pos: nat)
    requires
        pos <= s.len(),
        decode_row(f, props, s, pos) is Err,
        decode_row(f, props, s, pos) != Err::<(Seq<ValueModel>, nat), DeserializeCause>(
            DeserializeCause::UnexpectedEof,
        ),
    ensures
        decode_row(f, props, s + t, pos) == decode_row(f, props, s, pos),
    decreases props.len(),
{
    if props.len() > 0 {
        match decode_value(f, props[0], s, pos) {
            Err(_) => {
                lemma_value_err_extend(f, props[0], s, t, pos);
            },
            Ok((v, p)) => {
                lemma_value_extend(f, props[0], s, t, pos);
                crate::row::lemma_value_bounds(f, props[0], s, pos);
                lemma_row_err_extend(f, props.drop_first(), s, t, p);
            },
        }
    }
}

/// Reading rows that fails on data fails the same way when more data follows.
pub proof fn lemma_available_err_extend(
    f: PlyFormat,
    props: Seq<PropertyType>,
    s: Seq<u8>,
    t: Seq<u8>,
    pos: nat,
    n: nat,
)
    requires
        pos <= s.len(),
        decode_available(f, props, s, pos, n) is Err,
    ensures
        decode_available(f, props, s + t, pos, n) == decode_available(f, props, s, pos, n),
    decreases n,
{
    if n > 0 {
        match decode_row(f, props, s, pos) {
            Err(_) => {
                lemma_row_err_extend(f, props, s, t, pos);
            },
            Ok((r, p)) => {
                lemma_row_extend(f, props, s, t, pos);
                crate::row::lemma_row_bounds(f, props, s, pos);
                lemma_available_err_extend(f, props, s, t, p, (n - 1) as nat);
            },
        }
    }
}

/// Rows that read exactly are the rows that are available.
pub proof fn lemma_rows_available(f: PlyFormat, props: Seq<PropertyType>, s: Seq<u8>, pos: nat, n: nat)
    requires
        decode_rows(f, props, s, pos, n) is Ok,
    ensures
        decode_available(f, props, s, pos, n) == decode_rows(f, props, s, pos, n),
        decode_rows(f, props, s, pos, n)->Ok_0.0.len() == n,
    decreases n,
{
    if n > 0 {
        let (r, p) = decode_row(f, props, s, pos)->Ok_0;
        lemma_rows_available(f, props, s, p, (n - 1) as nat);
    }
}

/// As many available rows as were asked for read exactly.
pub proof fn lemma_available_rows(f: PlyFormat, props: Seq<PropertyType>, s: Seq<u8>, pos: nat, n: nat)
    requires
        decode_available(f, props, s, pos, n) matches Ok((rows, _)) && rows.len() == n,
    ensures
        decode_rows(f, props, s, pos, n) == decode_available(f, props, s, pos, n),
    decreases n,
{
    if n > 0 {
        match decode_row(f, props, s, pos) {
            Ok((r, p)) => {
                let (rest, e) = decode_available(f, props, s, p, (n - 1) as nat)->Ok_0;
                lemma_available_rows(f, props, s, p, (n - 1) as nat);
            },
            Err(_) => {},
        }
    }
}

} // verus!
