//! Rows read back as they were written.

use vstd::prelude::*;
use crate::ascii::{
    ascii_int, ascii_token, int_text, lemma_int_text_roundtrip, lemma_int_text_token,
    skip_ascii_ws, token_end,
};
use crate::binary::{lemma_scalar_bytes_roundtrip, scalar_bytes};
use crate::header::PropertyType;
use crate::row::{
    decode_cell, decode_items, decode_row, decode_rows, decode_value, encode_cell, encode_cells,
    encode_row, encode_value, encode_values, is_big, prepend, row_end,
};
use crate::header::{header_text, header_text_with, ElementModel, HeaderModel};
use crate::serializer::{
    field_out, fields_out, row_out, rows_out, scalar_out, seq_items, seq_start, separator, value_out,
};
use crate::header_proof::{header_well_formed, lemma_header_roundtrip};
use crate::reader::{decode_elements, decode_file, element_types};
use crate::writer::{body_bytes, collected_header, rows_bytes, write_file, ElementDataModel, OptionsModel};
use crate::scalar::{is_float_type, scalar_size, PlyFormat, ScalarType};
use crate::text::is_ascii_ws;
use crate::value::{
    cell_type, cell_writable, count_of, count_scalar, field_values, max_count, value_type, CellModel,
    FieldModel, ScalarValue, ValueModel,
};

verus! {

/// Only ASCII whitespace stands between `p` and `q`.
pub open spec fn ws_gap(s: Seq<u8>, p: nat, q: nat) -> bool {
    &&& p <= q <= s.len()
    &&& forall|k: int| p <= k < q ==> is_ascii_ws(#[trigger] s[k])
}

/// Reading at `p` comes to `q` before it reads anything: through whitespace in the
/// ASCII format; in the binary formats only where `p` is `q`.
pub open spec fn gap_ok(f: PlyFormat, s: Seq<u8>, p: nat, q: nat) -> bool {
    if f == PlyFormat::Ascii {
        ws_gap(s, p, q)
    } else {
        p == q && q <= s.len()
    }
}

/// A text cell is one token: not empty, without whitespace.
pub open spec fn token_cell(c: CellModel) -> bool {
    match c {
        CellModel::Text(_, t) => t.len() > 0 && forall|i: int| 0 <= i < t.len() ==> !is_ascii_ws(#[trigger] t[i]),
        CellModel::Num(_) => true,
    }
}

/// A cell that reads back as itself as a value of type `t`.
pub open spec fn cell_fits(f: PlyFormat, t: ScalarType, c: CellModel) -> bool {
    &&& cell_type(c) == t
    &&& cell_writable(f == PlyFormat::Ascii, c)
    &&& token_cell(c)
}

/// A value that reads back as itself as the value of a property of type `pt`.
pub open spec fn value_fits(f: PlyFormat, pt: PropertyType, v: ValueModel) -> bool {
    match (v, pt) {
        (ValueModel::Scalar(c), PropertyType::Scalar(t)) => cell_fits(f, t, c),
        (ValueModel::List(ct, cs), PropertyType::List { count_type, data_type }) => {
            &&& ct == count_type
            &&& !is_float_type(ct)
            &&& cs.len() <= max_count(ct)
            &&& forall|i: int| 0 <= i < cs.len() ==> cell_fits(f, data_type, #[trigger] cs[i])
        },
        _ => false,
    }
}

/// A row that reads back as itself as a row of properties of the types `props`.
pub open spec fn row_fits(f: PlyFormat, props: Seq<PropertyType>, vs: Seq<ValueModel>) -> bool {
    &&& vs.len() == props.len()
    &&& forall|i: int| 0 <= i < vs.len() ==> value_fits(f, props[i], #[trigger] vs[i])
}

/// `b` stands in `s` at `q`.
pub open spec fn stands_at(s: Seq<u8>, q: nat, b: Seq<u8>) -> bool {
    q + b.len() <= s.len() && s.subrange(q as int, (q + b.len()) as int) == b
}

proof fn lemma_stands_split(s: Seq<u8>, q: nat, a: Seq<u8>, b: Seq<u8>)
    requires
        stands_at(s, q, a + b),
    ensures
        stands_at(s, q, a),
        stands_at(s, q + a.len(), b),
{
    let whole = s.subrange(q as int, (q + a.len() + b.len()) as int);
    assert(whole == a + b);
    assert forall|i: int| 0 <= i < a.len() implies #[trigger] s.subrange(q as int, (q + a.len()) as int)[i] == a[i] by {
        assert(whole[i] == (a + b)[i]);
    }
    assert forall|i: int| 0 <= i < b.len() implies #[trigger] s.subrange((q + a.len()) as int, (q + a.len() + b.len()) as int)[i] == b[i] by {
        assert(whole[a.len() + i] == (a + b)[a.len() + i]);
    }
    assert(s.subrange(q as int, (q + a.len()) as int) =~= a);
    assert(s.subrange((q + a.len()) as int, (q + a.len() + b.len()) as int) =~= b);
}

proof fn lemma_skip_to(s: Seq<u8>, p: nat, q: nat)
    requires
        ws_gap(s, p, q),
        q < s.len(),
        !is_ascii_ws(s[q as int]),
    ensures
        skip_ascii_ws(s, p) == q,
    decreases q - p,
{
    if p < q {
        assert(is_ascii_ws(s[p as int]));
        lemma_skip_to(s, p + 1, q);
    }
}

proof fn lemma_token_end_at(s: Seq<u8>, i: nat, e: nat)
    requires
        i <= e < s.len(),
        forall|k: int| i <= k < e ==> !is_ascii_ws(#[trigger] s[k]),
        is_ascii_ws(s[e as int]),
    ensures
        token_end(s, i) == e,
    decreases e - i,
{
    if i < e {
        assert(!is_ascii_ws(s[i as int]));
        lemma_token_end_at(s, i + 1, e);
    }
}

/// A token followed by whitespace, after only whitespace, is the next token.
proof fn lemma_read_token(s: Seq<u8>, p: nat, q: nat, tok: Seq<u8>)
    requires
        ws_gap(s, p, q),
        tok.len() > 0,
        forall|i: int| 0 <= i < tok.len() ==> !is_ascii_ws(#[trigger] tok[i]),
        stands_at(s, q, tok + seq![32u8]),
    ensures
        ascii_token(s, p) == Some((tok, q + tok.len() + 1)),
{
    lemma_stands_split(s, q, tok, seq![32u8]);
    assert(s.subrange(q as int, (q + tok.len()) as int)[0] == tok[0]);
    assert(s[q as int] == tok[0]);
    lemma_skip_to(s, p, q);
    assert forall|k: int| q <= k < q + tok.len() implies !is_ascii_ws(#[trigger] s[k]) by {
        assert(s.subrange(q as int, (q + tok.len()) as int)[k - q] == tok[k - q]);
    }
    assert(s.subrange((q + tok.len()) as int, (q + tok.len() + 1) as int)[0] == 32u8);
    lemma_token_end_at(s, q, q + tok.len());
}

/// A cell that fits reads back as itself.
proof fn lemma_cell_roundtrip(f: PlyFormat, t: ScalarType, c: CellModel, s: Seq<u8>, p: nat, q: nat)
    requires
        gap_ok(f, s, p, q),
        cell_fits(f, t, c),
        stands_at(s, q, encode_cell(f, c)),
    ensures
        decode_cell(f, t, s, p) == Ok::<(CellModel, nat), crate::error::DeserializeCause>(
            (c, q + encode_cell(f, c).len()),
        ),
{
    if f == PlyFormat::Ascii {
        match c {
            CellModel::Num(v) => {
                lemma_int_text_token(v);
                lemma_read_token(s, p, q, int_text(v));
                lemma_int_text_roundtrip(v);
            },
            CellModel::Text(_, tok) => {
                lemma_read_token(s, p, q, tok);
            },
        }
    } else {
        match c {
            CellModel::Num(v) => {
                lemma_scalar_bytes_roundtrip(is_big(f), v);
            },
            CellModel::Text(_, _) => {},
        }
    }
}

/// The bytes of cells are those of the first, then those of the others.
pub proof fn lemma_encode_cells_front(f: PlyFormat, cs: Seq<CellModel>)
    requires
        cs.len() > 0,
    ensures
        encode_cells(f, cs) == encode_cell(f, cs[0]) + encode_cells(f, cs.drop_first()),
    decreases cs.len(),
{
    if cs.len() == 1 {
        assert(cs.drop_last().len() == 0);
        assert(cs.drop_first().len() == 0);
        assert(encode_cells(f, cs.drop_first()) =~= Seq::<u8>::empty());
        assert(encode_cells(f, cs.drop_last()) =~= Seq::<u8>::empty());
        assert(encode_cells(f, cs) =~= encode_cell(f, cs[0]));
    } else {
        lemma_encode_cells_front(f, cs.drop_last());
        assert(cs.drop_last().drop_first() =~= cs.drop_first().drop_last());
        assert(cs.drop_first().last() == cs.last());
        assert(cs.drop_last()[0] == cs[0]);
        assert(encode_cells(f, cs) =~= encode_cell(f, cs[0]) + encode_cells(f, cs.drop_first()));
    }
}

/// Cells that fit read back as themselves, one after the other.
proof fn lemma_items_roundtrip(f: PlyFormat, t: ScalarType, cs: Seq<CellModel>, s: Seq<u8>, q: nat)
    requires
        forall|i: int| 0 <= i < cs.len() ==> cell_fits(f, t, #[trigger] cs[i]),
        stands_at(s, q, encode_cells(f, cs)),
    ensures
        decode_items(f, t, s, q, cs.len()) == Ok::<(Seq<CellModel>, nat), crate::error::DeserializeCause>(
            (cs, q + encode_cells(f, cs).len()),
        ),
    decreases cs.len(),
{
    if cs.len() == 0 {
        assert(cs =~= Seq::<CellModel>::empty());
        assert(encode_cells(f, cs).len() == 0);
    } else {
        lemma_encode_cells_front(f, cs);
        let a = encode_cell(f, cs[0]);
        let rest = cs.drop_first();
        lemma_stands_split(s, q, a, encode_cells(f, rest));
        assert(cell_fits(f, t, cs[0]));
        lemma_cell_roundtrip(f, t, cs[0], s, q, q);
        assert forall|i: int| 0 <= i < rest.len() implies cell_fits(f, t, #[trigger] rest[i]) by {
            assert(rest[i] == cs[i + 1]);
        }
        lemma_items_roundtrip(f, t, rest, s, q + a.len());
        assert(seq![cs[0]] + rest =~= cs);
        assert(decode_cell(f, t, s, q) == Ok::<(CellModel, nat), crate::error::DeserializeCause>(
            (cs[0], q + a.len()),
        ));
        assert((cs.len() - 1) as nat == rest.len());
    }
}

/// The count of a list reads back as the list's length.
proof fn lemma_count_roundtrip(ct: ScalarType, n: nat)
    requires
        !is_float_type(ct),
        n <= max_count(ct),
    ensures
        value_type(count_scalar(ct, n as usize)) == ct,
        count_of(count_scalar(ct, n as usize)) == Some(n as usize),
        n as usize == n,
{
    assert(max_count(ct) <= 4294967295);
}

/// A value that fits reads back as itself.
proof fn lemma_value_roundtrip(f: PlyFormat, pt: PropertyType, v: ValueModel, s: Seq<u8>, p: nat, q: nat)
    requires
        gap_ok(f, s, p, q),
        value_fits(f, pt, v),
        stands_at(s, q, encode_value(f, v)),
    ensures
        decode_value(f, pt, s, p) == Ok::<(ValueModel, nat), crate::error::DeserializeCause>(
            (v, q + encode_value(f, v).len()),
        ),
{
    match v {
        ValueModel::Scalar(c) => {
            let t = pt->Scalar_0;
            lemma_cell_roundtrip(f, t, c, s, p, q);
        },
        ValueModel::List(ct, cs) => {
            let dt = pt->data_type;
            let n = cs.len();
            lemma_count_roundtrip(ct, n);
            let count = CellModel::Num(count_scalar(ct, n as usize));
            let a = encode_cell(f, count);
            lemma_stands_split(s, q, a, encode_cells(f, cs));
            if f == PlyFormat::Ascii {
                assert(!is_float_type(value_type(count_scalar(ct, n as usize))));
            }
            assert(cell_fits(f, ct, count));
            lemma_cell_roundtrip(f, ct, count, s, p, q);
            lemma_items_roundtrip(f, dt, cs, s, q + a.len());
        },
    }
}

/// The bytes of values are those of the first, then those of the others.
pub proof fn lemma_encode_values_front(f: PlyFormat, vs: Seq<ValueModel>)
    requires
        vs.len() > 0,
    ensures
        encode_values(f, vs) == encode_value(f, vs[0]) + encode_values(f, vs.drop_first()),
    decreases vs.len(),
{
    if vs.len() == 1 {
        assert(vs.drop_last().len() == 0);
        assert(vs.drop_first().len() == 0);
        assert(encode_values(f, vs.drop_first()) =~= Seq::<u8>::empty());
        assert(encode_values(f, vs.drop_last()) =~= Seq::<u8>::empty());
        assert(encode_values(f, vs) =~= encode_value(f, vs[0]));
    } else {
        lemma_encode_values_front(f, vs.drop_last());
        assert(vs.drop_last().drop_first() =~= vs.drop_first().drop_last());
        assert(vs.drop_first().last() == vs.last());
        assert(vs.drop_last()[0] == vs[0]);
        assert(encode_values(f, vs) =~= encode_value(f, vs[0]) + encode_values(f, vs.drop_first()));
    }
}

/// A row that fits reads back as itself; reading stops at most at its end, with
/// only whitespace (in the ASCII format) between where it stops and the end.
pub proof fn lemma_values_roundtrip(
    f: PlyFormat,
    props: Seq<PropertyType>,
    vs: Seq<ValueModel>,
    s: Seq<u8>,
    p: nat,
    q: nat,
)
    requires
        gap_ok(f, s, p, q),
        row_fits(f, props, vs),
        stands_at(s, q, encode_values(f, vs)),
    ensures
        decode_row(f, props, s, p) matches Ok((ws, e)) && ws == vs && gap_ok(
            f,
            s,
            e,
            q + encode_values(f, vs).len(),
        ),
    decreases vs.len(),
{
    if vs.len() == 0 {
        assert(encode_values(f, vs) =~= Seq::<u8>::empty());
        assert(props.len() == 0);
        assert(vs =~= Seq::<ValueModel>::empty());
    } else {
        lemma_encode_values_front(f, vs);
        let a = encode_value(f, vs[0]);
        let rest = vs.drop_first();
        lemma_stands_split(s, q, a, encode_values(f, rest));
        assert(value_fits(f, props[0], vs[0]));
        lemma_value_roundtrip(f, props[0], vs[0], s, p, q);
        assert forall|i: int| 0 <= i < rest.len() implies value_fits(
            f,
            props.drop_first()[i],
            #[trigger] rest[i],
        ) by {
            assert(rest[i] == vs[i + 1]);
            assert(props.drop_first()[i] == props[i + 1]);
        }
        lemma_values_roundtrip(f, props.drop_first(), rest, s, q + a.len(), q + a.len());
        assert(seq![vs[0]] + rest =~= vs);
    }
}

/// A row that fits the types of the properties reads back as itself from its
/// bytes, whatever follows them.
pub proof fn lemma_row_roundtrip(f: PlyFormat, props: Seq<PropertyType>, vs: Seq<ValueModel>, rest: Seq<u8>)
    requires
        row_fits(f, props, vs),
    ensures
        decode_row(f, props, encode_row(f, vs) + rest, 0) matches Ok((ws, e)) && ws == vs && e
            <= encode_values(f, vs).len(),
{
    let s = encode_row(f, vs) + rest;
    let b = encode_values(f, vs);
    assert(s.subrange(0, b.len() as int) =~= b);
    lemma_values_roundtrip(f, props, vs, s, 0, 0);
}

/// The values of rows of fields.
pub open spec fn rows_values(rows: Seq<Seq<FieldModel>>) -> Seq<Seq<ValueModel>> {
    rows.map_values(|r: Seq<FieldModel>| field_values(r))
}

/// The bytes of rows are those of the first, then those of the others.
proof fn lemma_rows_bytes_front(f: PlyFormat, rows: Seq<Seq<FieldModel>>)
    requires
        rows.len() > 0,
    ensures
        rows_bytes(f, rows) == encode_row(f, field_values(rows[0])) + rows_bytes(f, rows.drop_first()),
    decreases rows.len(),
{
    if rows.len() == 1 {
        assert(rows.drop_last().len() == 0);
        assert(rows.drop_first().len() == 0);
        assert(rows_bytes(f, rows.drop_first()) =~= Seq::<u8>::empty());
        assert(rows_bytes(f, rows.drop_last()) =~= Seq::<u8>::empty());
        assert(rows_bytes(f, rows) =~= encode_row(f, field_values(rows[0])));
    } else {
        lemma_rows_bytes_front(f, rows.drop_last());
        assert(rows.drop_last().drop_first() =~= rows.drop_first().drop_last());
        assert(rows.drop_first().last() == rows.last());
        assert(rows.drop_last()[0] == rows[0]);
        assert(rows_bytes(f, rows) =~= encode_row(f, field_values(rows[0])) + rows_bytes(
            f,
            rows.drop_first(),
        ));
    }
}

/// Rows that fit read back as themselves, one after the other.
proof fn lemma_rows_roundtrip(
    f: PlyFormat,
    props: Seq<PropertyType>,
    rows: Seq<Seq<FieldModel>>,
    s: Seq<u8>,
    p: nat,
    q: nat,
)
    requires
        gap_ok(f, s, p, q),
        forall|i: int| 0 <= i < rows.len() ==> row_fits(f, props, #[trigger] field_values(rows[i])),
        stands_at(s, q, rows_bytes(f, rows)),
    ensures
        decode_rows(f, props, s, p, rows.len()) matches Ok((rs, e)) && rs == rows_values(rows)
            && gap_ok(f, s, e, q + rows_bytes(f, rows).len()),
    decreases rows.len(),
{
    if rows.len() == 0 {
        assert(rows_values(rows) =~= Seq::<Seq<ValueModel>>::empty());
        assert(rows_bytes(f, rows).len() == 0);
    } else {
        lemma_rows_bytes_front(f, rows);
        let vs = field_values(rows[0]);
        let a = encode_values(f, vs);
        let end = row_end(f);
        let others = rows.drop_first();
        lemma_stands_split(s, q, encode_row(f, vs), rows_bytes(f, others));
        lemma_stands_split(s, q, a, end);
        assert(row_fits(f, props, field_values(rows[0])));
        lemma_values_roundtrip(f, props, vs, s, p, q);
        let e1 = match decode_row(f, props, s, p) {
            Ok((_, e)) => e,
            Err(_) => 0,
        };
        let q1 = q + a.len() + end.len();
        if f == PlyFormat::Ascii {
            assert(s.subrange((q + a.len()) as int, (q + a.len() + 1) as int)[0] == 10u8);
            assert(s[(q + a.len()) as int] == 10u8);
            assert(ws_gap(s, e1, q1));
        }
        assert(gap_ok(f, s, e1, q1));
        assert forall|i: int| 0 <= i < others.len() implies row_fits(f, props, #[trigger] field_values(others[i])) by {
            assert(others[i] == rows[i + 1]);
        }
        lemma_rows_roundtrip(f, props, others, s, e1, q1);
        assert(rows_values(rows) =~= seq![vs] + rows_values(others));
        assert((rows.len() - 1) as nat == others.len());
    }
}

/// The rows of each element, as values.
pub open spec fn element_rows(es: Seq<ElementDataModel>) -> Seq<Seq<Seq<ValueModel>>> {
    es.map_values(|e: ElementDataModel| rows_values(e.rows))
}

/// Every row of every element fits the properties that the header declares for
/// it, and each element declares as many rows as it has.
pub open spec fn data_fits(f: PlyFormat, es: Seq<ElementDataModel>, ms: Seq<ElementModel>) -> bool {
    &&& es.len() == ms.len()
    &&& forall|i: int| 0 <= i < es.len() ==> (#[trigger] ms[i]).count == es[i].rows.len()
    &&& forall|i: int, j: int|
        0 <= i < es.len() && 0 <= j < es[i].rows.len() ==> row_fits(
            f,
            element_types(ms[i]),
            #[trigger] field_values(es[i].rows[j]),
        )
}

/// The bytes of the elements' rows are those of the first element's, then the others'.
proof fn lemma_body_bytes_front(f: PlyFormat, es: Seq<ElementDataModel>)
    requires
        es.len() > 0,
    ensures
        body_bytes(f, es) == rows_bytes(f, es[0].rows) + body_bytes(f, es.drop_first()),
    decreases es.len(),
{
    if es.len() == 1 {
        assert(es.drop_last().len() == 0);
        assert(es.drop_first().len() == 0);
        assert(body_bytes(f, es.drop_first()) =~= Seq::<u8>::empty());
        assert(body_bytes(f, es.drop_last()) =~= Seq::<u8>::empty());
        assert(body_bytes(f, es) =~= rows_bytes(f, es[0].rows));
    } else {
        lemma_body_bytes_front(f, es.drop_last());
        assert(es.drop_last().drop_first() =~= es.drop_first().drop_last());
        assert(es.drop_first().last() == es.last());
        assert(es.drop_last()[0] == es[0]);
        assert(body_bytes(f, es) =~= rows_bytes(f, es[0].rows) + body_bytes(f, es.drop_first()));
    }
}

/// The elements from the `i`-th on read back as themselves, one after the other.
proof fn lemma_elements_roundtrip(
    h: HeaderModel,
    es: Seq<ElementDataModel>,
    s: Seq<u8>,
    p: nat,
    q: nat,
    i: nat,
)
    requires
        i <= es.len(),
        data_fits(h.format, es, h.elements),
        gap_ok(h.format, s, p, q),
        stands_at(s, q, body_bytes(h.format, es.skip(i as int))),
    ensures
        decode_elements(h, s, p, i) == Ok::<Seq<Seq<Seq<ValueModel>>>, crate::error::DeserializeCause>(
            element_rows(es.skip(i as int)),
        ),
    decreases es.len() - i,
{
    let f = h.format;
    if i == es.len() {
        assert(element_rows(es.skip(i as int)) =~= Seq::<Seq<Seq<ValueModel>>>::empty());
    } else {
        let tail = es.skip(i as int);
        lemma_body_bytes_front(f, tail);
        assert(tail[0] == es[i as int]);
        assert(tail.drop_first() =~= es.skip((i + 1) as int));
        let rows = es[i as int].rows;
        lemma_stands_split(s, q, rows_bytes(f, rows), body_bytes(f, es.skip((i + 1) as int)));
        let m = h.elements[i as int];
        assert(m.count == rows.len());
        assert forall|j: int| 0 <= j < rows.len() implies row_fits(
            f,
            element_types(m),
            #[trigger] field_values(rows[j]),
        ) by {
            assert(row_fits(f, element_types(h.elements[i as int]), field_values(es[i as int].rows[j])));
        }
        lemma_rows_roundtrip(f, element_types(m), rows, s, p, q);
        let e = match decode_rows(f, element_types(m), s, p, rows.len()) {
            Ok((_, e)) => e,
            Err(_) => 0,
        };
        lemma_elements_roundtrip(h, es, s, e, q + rows_bytes(f, rows).len(), i + 1);
        assert(element_rows(tail) =~= seq![rows_values(rows)] + element_rows(es.skip((i + 1) as int)));
    }
}

/// Data written with a header whose names and texts are words reads back as the
/// header and the rows of each element, when every row fits the properties that the
/// header declares.
pub proof fn lemma_file_roundtrip(o: OptionsModel, es: Seq<ElementDataModel>)
    requires
        write_file(o, es) is Ok,
        header_well_formed(collected_header(o, es)->Ok_0),
        data_fits(o.format, es, collected_header(o, es)->Ok_0.elements),
    ensures
        decode_file(write_file(o, es)->Ok_0) == Ok::<
            (HeaderModel, Seq<Seq<Seq<ValueModel>>>),
            crate::error::DeserializeCause,
        >((collected_header(o, es)->Ok_0, element_rows(es))),
{
    let h = collected_header(o, es)->Ok_0;
    let body = body_bytes(o.format, es);
    let b = header_text_with(h, true) + body;
    assert(write_file(o, es)->Ok_0 == b);
    lemma_header_roundtrip(h, true, body);
    let n = header_text_with(h, true).len();
    assert(es.skip(0) =~= es);
    assert(b.subrange(n as int, (n + body.len()) as int) =~= body);
    lemma_elements_roundtrip(h, es, b, n, n, 0);
}


// ---------------------------------------------------------------------------
// What the value-by-value writer writes reads back.
/// A property whose list count, if any, is one byte: what the value-by-value
/// writer writes in the binary formats.
pub open spec fn byte_counted(pt: PropertyType) -> bool {
    match pt {
        PropertyType::List { count_type, .. } => count_type == ScalarType::U8,
        PropertyType::Scalar(_) => true,
    }
}

/// A row that the value-by-value writer writes so that it reads back: it fits the
/// types of the properties, and in the binary formats its lists are counted in one
/// byte.
pub open spec fn written_row_fits(f: PlyFormat, props: Seq<PropertyType>, vs: Seq<ValueModel>) -> bool {
    &&& row_fits(f, props, vs)
    &&& f != PlyFormat::Ascii ==> forall|i: int| 0 <= i < props.len() ==> byte_counted(#[trigger] props[i])
}

proof fn lemma_seq_items_cells(f: PlyFormat, cs: Seq<CellModel>)
    ensures
        seq_items(f, cs) == encode_cells(f, cs),
    decreases cs.len(),
{
    if cs.len() > 0 {
        lemma_seq_items_cells(f, cs.drop_last());
        let c = cs.last();
        assert(scalar_out(f, c) + separator(f) =~= encode_cell(f, c));
        assert(seq_items(f, cs) =~= encode_cells(f, cs));
    }
}

/// A list is written as the reader reads it.
proof fn lemma_list_out(f: PlyFormat, pt: PropertyType, v: ValueModel)
    requires
        value_fits(f, pt, v),
        v is List,
        f != PlyFormat::Ascii ==> byte_counted(pt),
    ensures
        value_out(f, v) == encode_value(f, v),
{
    let ct = v->List_0;
    let cs = v->List_1;
    let n = cs.len();
    lemma_count_roundtrip(ct, n);
    lemma_seq_items_cells(f, cs);
    let cnt = count_scalar(ct, n as usize);
    if f == PlyFormat::Ascii {
        assert(crate::value::int_value(cnt) == n);
        assert(int_text(cnt) == crate::text::decimal(n));
    } else {
        assert(ct == ScalarType::U8);
        let b = crate::binary::le_bytes(n, 1);
        assert(crate::binary::le_bytes(n / 256, 0) =~= Seq::<u8>::empty());
        assert(b =~= seq![(n % 256) as u8]);
        assert(b.reverse() =~= b);
        assert(scalar_bytes(is_big(f), cnt) =~= seq![n as u8]);
    }
    assert(seq_start(f, n) =~= encode_cell(f, CellModel::Num(cnt)));
}

/// A token followed by a whitespace byte, after only whitespace, is the next token.
proof fn lemma_read_token_ws(s: Seq<u8>, p: nat, q: nat, tok: Seq<u8>)
    requires
        ws_gap(s, p, q),
        tok.len() > 0,
        forall|i: int| 0 <= i < tok.len() ==> !is_ascii_ws(#[trigger] tok[i]),
        stands_at(s, q, tok),
        q + tok.len() < s.len(),
        is_ascii_ws(s[(q + tok.len()) as int]),
    ensures
        ascii_token(s, p) == Some((tok, q + tok.len() + 1)),
{
    assert(s.subrange(q as int, (q + tok.len()) as int)[0] == tok[0]);
    assert(s[q as int] == tok[0]);
    lemma_skip_to(s, p, q);
    assert forall|k: int| q <= k < q + tok.len() implies !is_ascii_ws(#[trigger] s[k]) by {
        assert(s.subrange(q as int, (q + tok.len()) as int)[k - q] == tok[k - q]);
    }
    lemma_token_end_at(s, q, q + tok.len());
}

/// The width of a separator: one space in the ASCII format, none in the binary ones.
spec fn sep_len(f: PlyFormat) -> nat {
    if f == PlyFormat::Ascii {
        1
    } else {
        0
    }
}

/// A value written by the value-by-value writer reads back; reading stops where
/// only whitespace (in the ASCII format: up to and with the byte after it) remains.
proof fn lemma_written_value(f: PlyFormat, pt: PropertyType, v: ValueModel, s: Seq<u8>, p: nat, q: nat)
    requires
        gap_ok(f, s, p, q),
        value_fits(f, pt, v),
        f != PlyFormat::Ascii ==> byte_counted(pt),
        stands_at(s, q, value_out(f, v)),
        f == PlyFormat::Ascii ==> q + value_out(f, v).len() < s.len() && is_ascii_ws(
            s[(q + value_out(f, v).len()) as int],
        ),
    ensures
        decode_value(f, pt, s, p) matches Ok((w, e)) && w == v && gap_ok(
            f,
            s,
            e,
            q + value_out(f, v).len() + sep_len(f),
        ),
{
    let out = value_out(f, v);
    match v {
        ValueModel::List(_, _) => {
            lemma_list_out(f, pt, v);
            lemma_value_roundtrip(f, pt, v, s, p, q);
        },
        ValueModel::Scalar(c) => {
            let t = pt->Scalar_0;
            if f == PlyFormat::Ascii {
                match c {
                    CellModel::Num(x) => {
                        lemma_int_text_token(x);
                        lemma_read_token_ws(s, p, q, int_text(x));
                        lemma_int_text_roundtrip(x);
                    },
                    CellModel::Text(_, tok) => {
                        lemma_read_token_ws(s, p, q, tok);
                    },
                }
            } else {
                assert(encode_cell(f, c) == scalar_out(f, c));
                lemma_cell_roundtrip(f, t, c, s, p, q);
            }
        },
    }
}

/// Fields after the first are a separator, then their value.
proof fn lemma_fields_front(f: PlyFormat, start: nat, vs: Seq<ValueModel>)
    requires
        vs.len() > 0,
    ensures
        fields_out(f, start, vs) == field_out(f, start == 0, vs[0]) + fields_out(f, start + 1, vs.drop_first()),
    decreases vs.len(),
{
    if vs.len() == 1 {
        assert(vs.drop_last().len() == 0);
        assert(vs.drop_first().len() == 0);
        assert(fields_out(f, start + 1, vs.drop_first()) =~= Seq::<u8>::empty());
        assert(fields_out(f, start, vs.drop_last()) =~= Seq::<u8>::empty());
        assert(fields_out(f, start, vs) =~= field_out(f, start == 0, vs[0]));
    } else {
        lemma_fields_front(f, start, vs.drop_last());
        assert(vs.drop_last().drop_first() =~= vs.drop_first().drop_last());
        assert(vs.drop_first().last() == vs.last());
        assert(vs.drop_last()[0] == vs[0]);
        assert(fields_out(f, start, vs) =~= field_out(f, start == 0, vs[0]) + fields_out(
            f,
            start + 1,
            vs.drop_first(),
        ));
    }
}

/// Fields written after a first one read back, each value after its separator.
proof fn lemma_written_fields(
    f: PlyFormat,
    props: Seq<PropertyType>,
    vs: Seq<ValueModel>,
    s: Seq<u8>,
    p: nat,
    q: nat,
    start: nat,
)
    requires
        start > 0,
        gap_ok(f, s, p, q + sep_len(f)),
        written_row_fits(f, props, vs),
        stands_at(s, q, fields_out(f, start, vs)),
        f == PlyFormat::Ascii ==> q + fields_out(f, start, vs).len() < s.len() && is_ascii_ws(
            s[(q + fields_out(f, start, vs).len()) as int],
        ),
    ensures
        decode_row(f, props, s, p) matches Ok((w, e)) && w == vs && gap_ok(
            f,
            s,
            e,
            q + fields_out(f, start, vs).len() + sep_len(f),
        ),
    decreases vs.len(),
{
    if vs.len() == 0 {
        assert(props.len() == 0);
        assert(vs =~= Seq::<ValueModel>::empty());
        assert(fields_out(f, start, vs).len() == 0);
    } else {
        lemma_fields_front(f, start, vs);
        let v = vs[0];
        let rest = vs.drop_first();
        let a = field_out(f, false, v);
        let out = value_out(f, v);
        assert(a == separator(f) + out);
        lemma_stands_split(s, q, a, fields_out(f, start + 1, rest));
        lemma_stands_split(s, q, separator(f), out);
        let vq = q + sep_len(f);
        assert(value_fits(f, props[0], v));
        if f != PlyFormat::Ascii {
            assert(byte_counted(props[0]));
        }
        let q2 = q + a.len();
        if f == PlyFormat::Ascii {
            if rest.len() > 0 {
                lemma_fields_front(f, start + 1, rest);
                assert(fields_out(f, start + 1, rest)[0] == 32u8);
                assert(s.subrange(q2 as int, (q2 + fields_out(f, start + 1, rest).len()) as int)[0] == s[q2 as int]);
            } else {
                assert(fields_out(f, start + 1, rest).len() == 0);
            }
        }
        lemma_written_value(f, props[0], v, s, p, vq);
        let e0 = decode_value(f, props[0], s, p)->Ok_0.1;
        assert forall|i: int| 0 <= i < rest.len() implies value_fits(
            f,
            props.drop_first()[i],
            #[trigger] rest[i],
        ) by {
            assert(rest[i] == vs[i + 1]);
            assert(props.drop_first()[i] == props[i + 1]);
        }
        if f != PlyFormat::Ascii {
            assert forall|i: int| 0 <= i < props.drop_first().len() implies byte_counted(
                #[trigger] props.drop_first()[i],
            ) by {
                assert(props.drop_first()[i] == props[i + 1]);
            }
        }
        lemma_written_fields(f, props.drop_first(), rest, s, e0, q2, start + 1);
        assert(seq![v] + rest =~= vs);
    }
}

/// A row that the value-by-value writer writes reads back; reading stops where only
/// whitespace remains before the row's end.
proof fn lemma_written_row(f: PlyFormat, props: Seq<PropertyType>, vs: Seq<ValueModel>, s: Seq<u8>, p: nat, q: nat)
    requires
        gap_ok(f, s, p, q),
        written_row_fits(f, props, vs),
        stands_at(s, q, row_out(f, vs)),
    ensures
        decode_row(f, props, s, p) matches Ok((w, e)) && w == vs && gap_ok(f, s, e, q + row_out(f, vs).len()),
{
    let fo = fields_out(f, 0, vs);
    let end = if f == PlyFormat::Ascii {
        seq![10u8]
    } else {
        seq![]
    };
    assert(row_out(f, vs) == fo + end);
    lemma_stands_split(s, q, fo, end);
    if f == PlyFormat::Ascii {
        assert(s.subrange((q + fo.len()) as int, (q + fo.len() + 1) as int)[0] == s[(q + fo.len()) as int]);
        assert(is_ascii_ws(s[(q + fo.len()) as int]));
    }
    if vs.len() == 0 {
        assert(props.len() == 0);
        assert(vs =~= Seq::<ValueModel>::empty());
        assert(fo.len() == 0);
    } else {
        lemma_fields_front(f, 0, vs);
        let v = vs[0];
        let rest = vs.drop_first();
        let out = value_out(f, v);
        assert(field_out(f, true, v) =~= out);
        lemma_stands_split(s, q, out, fields_out(f, 1, rest));
        let q2 = q + out.len();
        if f == PlyFormat::Ascii && rest.len() > 0 {
            lemma_fields_front(f, 1, rest);
            assert(fields_out(f, 1, rest)[0] == 32u8);
            assert(s.subrange(q2 as int, (q2 + fields_out(f, 1, rest).len()) as int)[0] == s[q2 as int]);
        }
        assert(value_fits(f, props[0], v));
        if f != PlyFormat::Ascii {
            assert(byte_counted(props[0]));
        }
        lemma_written_value(f, props[0], v, s, p, q);
        let e0 = decode_value(f, props[0], s, p)->Ok_0.1;
        assert forall|i: int| 0 <= i < rest.len() implies value_fits(
            f,
            props.drop_first()[i],
            #[trigger] rest[i],
        ) by {
            assert(rest[i] == vs[i + 1]);
            assert(props.drop_first()[i] == props[i + 1]);
        }
        if f != PlyFormat::Ascii {
            assert forall|i: int| 0 <= i < props.drop_first().len() implies byte_counted(
                #[trigger] props.drop_first()[i],
            ) by {
                assert(props.drop_first()[i] == props[i + 1]);
            }
        }
        lemma_written_fields(f, props.drop_first(), rest, s, e0, q2, 1);
        assert(seq![v] + rest =~= vs);
    }
}

proof fn lemma_rows_out_front(f: PlyFormat, rows: Seq<Seq<FieldModel>>)
    requires
        rows.len() > 0,
    ensures
        rows_out(f, rows) == row_out(f, field_values(rows[0])) + rows_out(f, rows.drop_first()),
    decreases rows.len(),
{
    if rows.len() == 1 {
        assert(rows.drop_last().len() == 0);
        assert(rows.drop_first().len() == 0);
        assert(rows_out(f, rows.drop_first()) =~= Seq::<u8>::empty());
        assert(rows_out(f, rows.drop_last()) =~= Seq::<u8>::empty());
        assert(rows_out(f, rows) =~= row_out(f, field_values(rows[0])));
    } else {
        lemma_rows_out_front(f, rows.drop_last());
        assert(rows.drop_last().drop_first() =~= rows.drop_first().drop_last());
        assert(rows.drop_first().last() == rows.last());
        assert(rows.drop_last()[0] == rows[0]);
        assert(rows_out(f, rows) =~= row_out(f, field_values(rows[0])) + rows_out(f, rows.drop_first()));
    }
}

proof fn lemma_written_rows(
    f: PlyFormat,
    props: Seq<PropertyType>,
    rows: Seq<Seq<FieldModel>>,
    s: Seq<u8>,
    p: nat,
    q: nat,
)
    requires
        gap_ok(f, s, p, q),
        forall|j: int| 0 <= j < rows.len() ==> written_row_fits(f, props, #[trigger] field_values(rows[j])),
        stands_at(s, q, rows_out(f, rows)),
    ensures
        decode_rows(f, props, s, p, rows.len()) matches Ok((ws, e)) && ws == rows_values(rows) && gap_ok(
            f,
            s,
            e,
            q + rows_out(f, rows).len(),
        ),
    decreases rows.len(),
{
    if rows.len() == 0 {
        assert(rows_values(rows) =~= Seq::<Seq<ValueModel>>::empty());
        assert(rows_out(f, rows).len() == 0);
    } else {
        lemma_rows_out_front(f, rows);
        let vs = field_values(rows[0]);
        let tail = rows.drop_first();
        lemma_stands_split(s, q, row_out(f, vs), rows_out(f, tail));
        lemma_written_row(f, props, vs, s, p, q);
        let e0 = decode_row(f, props, s, p)->Ok_0.1;
        assert forall|j: int| 0 <= j < tail.len() implies written_row_fits(
            f,
            props,
            #[trigger] field_values(tail[j]),
        ) by {
            assert(tail[j] == rows[j + 1]);
        }
        lemma_written_rows(f, props, tail, s, e0, q + row_out(f, vs).len());
        assert(rows_values(rows) =~= seq![vs] + rows_values(tail));
    }
}

/// What the value-by-value writer writes for one element, after the header, reads
/// back: a header that is well formed and declares that element alone, with as many
/// rows as there are, followed by rows that fit its properties (in the binary
/// formats, with lists counted in one byte), reads as that header and those rows.
pub proof fn lemma_serializer_roundtrip(h: HeaderModel, rows: Seq<Seq<FieldModel>>)
    requires
        header_well_formed(h),
        h.elements.len() == 1,
        h.elements[0].count == rows.len(),
        forall|j: int|
            0 <= j < rows.len() ==> written_row_fits(h.format, element_types(h.elements[0]), #[trigger] field_values(rows[j])),
    ensures
        decode_file(header_text(h) + rows_out(h.format, rows)) == Ok::<
            (HeaderModel, Seq<Seq<Seq<ValueModel>>>),
            crate::error::DeserializeCause,
        >((h, seq![rows_values(rows)])),
{
    let f = h.format;
    let body = rows_out(f, rows);
    let b = header_text(h) + body;
    lemma_header_roundtrip(h, false, body);
    let n = header_text(h).len();
    assert(b.subrange(n as int, (n + body.len()) as int) =~= body);
    let t = element_types(h.elements[0]);
    lemma_written_rows(f, t, rows, b, n, n);
    let e = decode_rows(f, t, b, n, rows.len())->Ok_0.1;
    assert(decode_elements(h, b, e, 1) == Ok::<Seq<Seq<Seq<ValueModel>>>, crate::error::DeserializeCause>(seq![]));
    assert(seq![rows_values(rows)] + Seq::<Seq<Seq<ValueModel>>>::empty() =~= seq![rows_values(rows)]);
}

} // verus!
