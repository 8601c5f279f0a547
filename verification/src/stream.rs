//! Reading a whole file that arrives in pieces: the header once all of it has
//! arrived, then every row of every element, in order, wherever the pieces split.

use vstd::prelude::*;
use crate::chunked::{
    advanced, chunk_step, chunked_wf, current_def, file_step, is_header_end, lemma_header_end_unique,
    load_header, load_header_at_end, pending_rows, ChunkedModel,
};
use crate::header::occurs_at;
use crate::error::DeserializeCause;
use crate::header::{header_lines, initial_state, parse_header, HeaderModel, ParseState, PropertyModel};
use crate::reader::{decode_elements, decode_file, element_types};
use crate::resume::{
    lemma_available_err_extend, lemma_available_extend, lemma_available_rows, lemma_available_shift,
    lemma_rows_available,
};
use crate::row::{decode_available, decode_rows};
use crate::text::line_len;
use crate::value::ValueModel;
use crate::words::kw_end_header;

verus! {

// ---------------------------------------------------------------------------
// A header is read from a prefix of data once the prefix holds all of it.
/// The first line ends at its first '\n', or with the data.
proof fn lemma_line_len_shape(s: Seq<u8>)
    ensures
        line_len(s) <= s.len(),
        forall|m: int| 0 <= m < line_len(s) - 1 ==> #[trigger] s[m] != 10,
        line_len(s) < s.len() ==> line_len(s) >= 1 && s[line_len(s) - 1] == 10,
        s.len() > 0 ==> line_len(s) >= 1,
    decreases s.len(),
{
    if s.len() > 0 && s[0] != 10 {
        let t = s.drop_first();
        lemma_line_len_shape(t);
        assert forall|m: int| 0 <= m < line_len(s) - 1 implies #[trigger] s[m] != 10 by {
            if m > 0 {
                assert(s[m] == t[m - 1]);
            }
        }
        if line_len(s) < s.len() {
            assert(s[line_len(s) - 1] == t[line_len(t) - 1]);
        }
    }
}

/// A line that ends in '\n' is the first line of every prefix that holds it; a
/// shorter prefix is one line without '\n'.
proof fn lemma_line_len_prefix(s: Seq<u8>, k: int)
    requires
        0 <= k <= s.len(),
        line_len(s) >= 1,
        s[line_len(s) - 1] == 10,
    ensures
        k >= line_len(s) ==> line_len(s.take(k)) == line_len(s),
        k < line_len(s) ==> line_len(s.take(k)) == k,
        k < line_len(s) ==> forall|m: int| 0 <= m < k ==> #[trigger] s.take(k)[m] != 10,
{
    lemma_line_len_shape(s);
    let l = line_len(s) as int;
    let p = s.take(k);
    if k >= l {
        assert forall|m: int| 0 <= m < l - 1 implies #[trigger] p[m] != 10 by {
            assert(p[m] == s[m]);
        }
        assert(p[l - 1] == s[l - 1]);
        crate::text::lemma_line_len_exact(p, l - 1);
    } else {
        assert forall|m: int| 0 <= m < k implies #[trigger] p[m] != 10 by {
            assert(p[m] == s[m]);
        }
        crate::text::lemma_line_len_exact(p, k);
    }
}

proof fn lemma_lines_prefix(d: Seq<u8>, pos: nat, st: ParseState, k: nat)
    requires
        header_lines(d, pos, st) is Ok,
        pos <= k <= d.len(),
    ensures
        ({
            let n = header_lines(d, pos, st)->Ok_0.1;
            &&& pos < n <= d.len()
            &&& k >= n ==> header_lines(d.take(k as int), pos, st) == header_lines(d, pos, st)
            &&& k < n ==> header_lines(d.take(k as int), pos, st) is Err
        }),
    decreases d.len() - pos,
{
    let n = header_lines(d, pos, st)->Ok_0.1;
    let p = d.take(k as int);
    assert(pos < d.len());
    let t = d.skip(pos as int);
    let l = line_len(t);
    lemma_line_len_shape(t);
    let line = d.subrange(pos as int, (pos + l) as int);
    assert(line =~= t.take(l as int));
    let ends = line == kw_end_header();
    if ends {
        assert(header_lines(d, pos, st) == crate::header::header_finish(st, pos + l));
        assert(line[10] == 10);
        assert(t[l - 1] == 10);
    } else {
        let st2 = crate::header::header_step(st, line)->Ok_0;
        assert(header_lines(d, pos, st) == header_lines(d, pos + l, st2));
        assert(pos + l < d.len());
        lemma_lines_prefix(d, pos + l, st2, if k >= pos + l { k } else { pos + l });
        assert(t[l - 1] == 10);
    }
    assert(n >= pos + l);
    if k == pos {
        assert(p.len() == pos);
    } else {
        let tp = p.skip(pos as int);
        assert(tp =~= t.take(k - pos));
        lemma_line_len_prefix(t, k - pos);
        if k >= pos + l {
            assert(line_len(tp) == l);
            assert(p.subrange(pos as int, (pos + l) as int) =~= line);
            if !ends {
                let st2 = crate::header::header_step(st, line)->Ok_0;
                lemma_lines_prefix(d, pos + l, st2, k);
                assert(header_lines(p, pos, st) == header_lines(p, pos + l, st2));
            } else {
                assert(header_lines(p, pos, st) == crate::header::header_finish(st, pos + l));
            }
        } else {
            assert(line_len(tp) == k - pos);
            let line2 = p.subrange(pos as int, k as int);
            assert(line2 =~= tp.take((k - pos) as int));
            assert(line2 != kw_end_header()) by {
                if line2 == kw_end_header() {
                    assert(line2.len() == 11);
                    assert(tp.take((k - pos) as int)[10] != 10);
                }
            }
            match crate::header::header_step(st, line2) {
                Ok(st3) => {
                    assert(header_lines(p, pos, st) == header_lines(p, k, st3));
                },
                Err(_) => {},
            }
        }
    }
}

/// Once a prefix of data holds the whole header, the header reads from it as from
/// all the data; a shorter prefix does not read.
pub proof fn lemma_header_prefix(d: Seq<u8>, k: nat)
    requires
        parse_header(d) is Ok,
        k <= d.len(),
    ensures
        parse_header(d)->Ok_0.1 <= d.len(),
        k >= parse_header(d)->Ok_0.1 ==> parse_header(d.take(k as int)) == parse_header(d),
        k < parse_header(d)->Ok_0.1 ==> parse_header(d.take(k as int)) is Err,
{
    let n0 = line_len(d);
    lemma_line_len_shape(d);
    let n = parse_header(d)->Ok_0.1;
    lemma_lines_prefix(d, n0, initial_state(), if k >= n0 { k } else { n0 });
    assert(n0 < d.len());
    let p = d.take(k as int);
    lemma_line_len_prefix(d, k as int);
    if k >= n0 {
        assert(p.take(n0 as int) =~= d.take(n0 as int));
        lemma_lines_prefix(d, n0, initial_state(), k);
    } else {
        assert(p.take(k as int) =~= p);
    }
}


// ---------------------------------------------------------------------------
// Feeding a file in pieces.
/// The pieces, one after the other.
pub open spec fn joined(ps: Seq<Seq<u8>>) -> Seq<u8>
    decreases ps.len(),
{
    if ps.len() == 0 {
        seq![]
    } else {
        ps[0] + joined(ps.drop_first())
    }
}

/// The rows of the elements, element after element.
pub open spec fn all_rows(es: Seq<Seq<Seq<ValueModel>>>) -> Seq<Seq<ValueModel>>
    decreases es.len(),
{
    if es.len() == 0 {
        seq![]
    } else {
        all_rows(es.drop_last()) + es.last()
    }
}

/// A reader that has read nothing yet.
pub open spec fn fresh() -> ChunkedModel {
    ChunkedModel { header: None, element: 0, rows: 0, buffer: seq![] }
}

/// The reader with `c` written at the end of its buffer.
pub open spec fn feed(m: ChunkedModel, c: Seq<u8>) -> ChunkedModel {
    ChunkedModel { buffer: m.buffer + c, ..m }
}

/// Every element has been read.
pub open spec fn reader_done(m: ChunkedModel) -> bool {
    match m.header {
        Some(h) => m.element >= h.elements.len(),
        None => false,
    }
}

/// `rows`, then what `r` gives.
pub open spec fn then_rows(
    rows: Seq<Seq<ValueModel>>,
    r: Result<Seq<Seq<ValueModel>>, DeserializeCause>,
) -> Result<Seq<Seq<ValueModel>>, DeserializeCause> {
    match r {
        Ok(xs) => Ok(rows + xs),
        Err(c) => Err(c),
    }
}

/// Feeds the pieces in turn, and after each reads a chunk while elements remain:
/// the reader at the end, and the rows read, or the first error.
pub open spec fn read_pieces(m: ChunkedModel, ps: Seq<Seq<u8>>) -> (
    ChunkedModel,
    Result<Seq<Seq<ValueModel>>, DeserializeCause>,
)
    decreases ps.len(),
{
    if ps.len() == 0 {
        (m, Ok(seq![]))
    } else {
        let fed = feed(m, ps[0]);
        if reader_done(fed) {
            read_pieces(fed, ps.drop_first())
        } else {
            let step = chunk_step(fed);
            match step.1 {
                Err(c) => (step.0, Err(c)),
                Ok(rows) => {
                    let rest = read_pieces(step.0, ps.drop_first());
                    (rest.0, then_rows(rows, rest.1))
                },
            }
        }
    }
}

/// Reads up to `k` more chunks, while elements remain.
pub open spec fn read_rest(m: ChunkedModel, k: nat) -> (
    ChunkedModel,
    Result<Seq<Seq<ValueModel>>, DeserializeCause>,
)
    decreases k,
{
    if k == 0 || reader_done(m) {
        (m, Ok(seq![]))
    } else {
        let step = chunk_step(m);
        match step.1 {
            Err(c) => (step.0, Err(c)),
            Ok(rows) => {
                let rest = read_rest(step.0, (k - 1) as nat);
                (rest.0, then_rows(rows, rest.1))
            },
        }
    }
}

/// The reader of the element `m.element`, `k` bytes into data `d`, whose rows `rs`
/// it has given so far, stands where reading `d` at once would: its buffer holds
/// the bytes from there to `k`, and reading exactly the rest from there gives the
/// element's remaining rows and then the following elements'.
pub open spec fn rows_left(
    d: Seq<u8>,
    h: HeaderModel,
    es: Seq<Seq<Seq<ValueModel>>>,
    m: ChunkedModel,
    k: nat,
    rs: Seq<Seq<ValueModel>>,
) -> bool {
    let i = m.element;
    let e = h.elements[i as int];
    let q = (k - m.buffer.len()) as nat;
    &&& m.rows <= e.count
    &&& es[i as int].len() == e.count
    &&& decode_rows(h.format, element_types(e), d, q, (e.count - m.rows) as nat) matches Ok((xs, p))
        && xs == es[i as int].skip(m.rows as int) && decode_elements(h, d, p, i + 1) == Ok::<
        Seq<Seq<Seq<ValueModel>>>,
        DeserializeCause,
    >(es.skip(i + 1 as int))
    &&& rs == all_rows(es.take(i as int)) + es[i as int].take(m.rows as int)
}

/// The reader, `k` bytes into data `d` that read as header `h` and rows `es`, has
/// given the rows `rs` that reading `d` at once gives first.
#[verifier::opaque]
pub open spec fn on_track(
    d: Seq<u8>,
    h: HeaderModel,
    es: Seq<Seq<Seq<ValueModel>>>,
    m: ChunkedModel,
    k: nat,
    rs: Seq<Seq<ValueModel>>,
) -> bool {
    &&& k <= d.len()
    &&& m.buffer.len() <= k
    &&& m.buffer == d.subrange(k - m.buffer.len(), k as int)
    &&& es.len() == h.elements.len()
    &&& match m.header {
        None => m.element == 0 && m.rows == 0 && m.buffer.len() == k && rs.len() == 0,
        Some(hh) => hh == h && m.element <= h.elements.len() && if m.element == h.elements.len() {
            rs == all_rows(es)
        } else {
            rows_left(d, h, es, m, k, rs)
        },
    }
}

proof fn lemma_elements_len(h: HeaderModel, d: Seq<u8>, pos: nat, i: nat)
    requires
        decode_elements(h, d, pos, i) is Ok,
        i <= h.elements.len(),
    ensures
        decode_elements(h, d, pos, i)->Ok_0.len() == h.elements.len() - i,
    decreases h.elements.len() - i,
{
    if i < h.elements.len() {
        let e = h.elements[i as int];
        let (rows, p) = decode_rows(h.format, element_types(e), d, pos, e.count)->Ok_0;
        lemma_elements_len(h, d, p, i + 1);
    }
}

/// The rows of the first `i + 1` elements are those of the first `i`, then the
/// `i`-th's.
proof fn lemma_all_rows_take(es: Seq<Seq<Seq<ValueModel>>>, i: int)
    requires
        0 <= i < es.len(),
    ensures
        all_rows(es.take(i + 1 as int)) == all_rows(es.take(i)) + es[i],
{
    assert(es.take(i + 1).drop_last() =~= es.take(i));
}

/// Element `i` begins at `p`: its reader, with nothing of it read yet, is on track.
proof fn lemma_element_begins(
    d: Seq<u8>,
    h: HeaderModel,
    es: Seq<Seq<Seq<ValueModel>>>,
    m: ChunkedModel,
    k: nat,
    p: nat,
)
    requires
        m.header == Some(h),
        m.rows == 0,
        m.element < h.elements.len(),
        es.len() == h.elements.len(),
        m.buffer.len() <= k <= d.len(),
        p == k - m.buffer.len(),
        m.buffer == d.subrange(p as int, k as int),
        decode_elements(h, d, p, m.element) == Ok::<Seq<Seq<Seq<ValueModel>>>, DeserializeCause>(
            es.skip(m.element as int),
        ),
    ensures
        on_track(d, h, es, m, k, all_rows(es.take(m.element as int))),
{
    reveal(on_track);
    let i = m.element;
    let e = h.elements[i as int];
    let (rows, p2) = decode_rows(h.format, element_types(e), d, p, e.count)->Ok_0;
    let rest = decode_elements(h, d, p2, i + 1)->Ok_0;
    assert(es.skip(i as int) == seq![rows] + rest);
    assert(es[i as int] == es.skip(i as int)[0]);
    assert(es.skip(i as int + 1) =~= (seq![rows] + rest).drop_first());
    assert(rest =~= (seq![rows] + rest).drop_first());
    lemma_rows_available(h.format, element_types(e), d, p, e.count);
    assert(es[i as int].skip(0) =~= es[i as int]);
    assert(all_rows(es.take(i as int)) + es[i as int].take(0) =~= all_rows(es.take(i as int)));
}

/// Writing bytes of the data into the buffer keeps the reader on track.
proof fn lemma_feed(
    d: Seq<u8>,
    h: HeaderModel,
    es: Seq<Seq<Seq<ValueModel>>>,
    m: ChunkedModel,
    k: nat,
    rs: Seq<Seq<ValueModel>>,
    c: Seq<u8>,
)
    requires
        on_track(d, h, es, m, k, rs),
        k + c.len() <= d.len(),
        d.subrange(k as int, (k + c.len()) as int) == c,
    ensures
        on_track(d, h, es, feed(m, c), k + c.len(), rs),
{
    reveal(on_track);
    let q = k - m.buffer.len();
    assert(feed(m, c).buffer =~= d.subrange(q, (k + c.len()) as int));
    assert((k + c.len()) - feed(m, c).buffer.len() == q);
}

/// The rows that a prefix of data holds whole from `q`, of `n` rows that read exactly
/// from `q`: they are the first of those, and the others read exactly from where
/// they end; with all the data there, they are all of them.
#[verifier::rlimit(40)]
proof fn lemma_prefix_rows(f: crate::scalar::PlyFormat, t: Seq<crate::header::PropertyType>, d: Seq<u8>, q: nat, k: nat, n: nat)
    requires
        q <= k <= d.len(),
        decode_rows(f, t, d, q, n) is Ok,
    ensures
        decode_available(f, t, d.take(k as int), q, n) matches Ok((rows, p1)) && ({
            &&& q <= p1 <= k
            &&& rows.len() <= n
            &&& (k == d.len() ==> rows.len() == n)
            &&& decode_rows(f, t, d, p1, (n - rows.len()) as nat) matches Ok((ys, pe)) && ys.len() == n
                - rows.len() && decode_rows(f, t, d, q, n)->Ok_0 == (rows + ys, pe)
        }),
{
    let s = d.take(k as int);
    let rest = d.skip(k as int);
    assert(s + rest =~= d);
    lemma_rows_available(f, t, d, q, n);
    if decode_available(f, t, s, q, n) is Err {
        lemma_available_err_extend(f, t, s, rest, q, n);
        assert(false);
    }
    let r1 = decode_available(f, t, s, q, n)->Ok_0;
    let rows = r1.0;
    let p1 = r1.1;
    crate::row::lemma_available_bounds(f, t, s, q, n);
    lemma_available_extend(f, t, s, rest, q, n);
    let m = (n - rows.len()) as nat;
    let r2 = decode_available(f, t, d, p1, m);
    assert(r2 is Ok);
    let ys = r2->Ok_0.0;
    assert(ys.len() == m);
    lemma_available_rows(f, t, d, p1, m);
    lemma_rows_available(f, t, d, p1, m);
    if k == d.len() {
        assert(s =~= d);
    }
}

/// The rows that the bytes of data from `q` to `k` hold whole: those of
/// [`lemma_prefix_rows`], the positions counted from `q`.
proof fn lemma_chunk_data(f: crate::scalar::PlyFormat, t: Seq<crate::header::PropertyType>, d: Seq<u8>, q: nat, k: nat, n: nat)
    requires
        q <= k <= d.len(),
    ensures
        decode_available(f, t, d.take(k as int), q, n) == crate::resume::shifted(
            decode_available(f, t, d.subrange(q as int, k as int), 0, n),
            q,
        ),
{
    lemma_available_shift(f, t, d.take(k as int), q, 0, n);
    assert(d.take(k as int).skip(q as int) =~= d.subrange(q as int, k as int));
}

proof fn lemma_track_open(
    d: Seq<u8>,
    h: HeaderModel,
    es: Seq<Seq<Seq<ValueModel>>>,
    m: ChunkedModel,
    k: nat,
    rs: Seq<Seq<ValueModel>>,
)
    requires
        on_track(d, h, es, m, k, rs),
        m.header == Some(h),
        m.element < h.elements.len(),
    ensures
        k <= d.len(),
        m.buffer.len() <= k,
        m.buffer == d.subrange(k - m.buffer.len(), k as int),
        es.len() == h.elements.len(),
        rows_left(d, h, es, m, k, rs),
{
    reveal(on_track);
}

proof fn lemma_track_close(
    d: Seq<u8>,
    h: HeaderModel,
    es: Seq<Seq<Seq<ValueModel>>>,
    m: ChunkedModel,
    k: nat,
    rs: Seq<Seq<ValueModel>>,
)
    requires
        k <= d.len(),
        m.buffer.len() <= k,
        m.buffer == d.subrange(k - m.buffer.len(), k as int),
        es.len() == h.elements.len(),
        m.header == Some(h),
        m.element < h.elements.len() ==> rows_left(d, h, es, m, k, rs),
        m.element == h.elements.len() ==> rs == all_rows(es),
        m.element <= h.elements.len(),
    ensures
        on_track(d, h, es, m, k, rs),
{
    reveal(on_track);
}

/// Reading a chunk of the element being read keeps the reader on track; with all
/// the data there, it reads the element to its end.
#[verifier::rlimit(40)]
proof fn lemma_step_rows(
    d: Seq<u8>,
    h: HeaderModel,
    es: Seq<Seq<Seq<ValueModel>>>,
    m: ChunkedModel,
    k: nat,
    rs: Seq<Seq<ValueModel>>,
)
    requires
        on_track(d, h, es, m, k, rs),
        m.header == Some(h),
        m.element < h.elements.len(),
    ensures
        chunk_step(m).1 is Ok,
        on_track(d, h, es, chunk_step(m).0, k, rs + chunk_step(m).1->Ok_0),
        chunk_step(m).0.header == Some(h),
        k == d.len() ==> chunk_step(m).0.element == m.element + 1,
{
    lemma_track_open(d, h, es, m, k, rs);
    let i = m.element;
    let e = h.elements[i as int];
    let f = h.format;
    let t = element_types(e);
    let j = m.rows;
    let n = (e.count - j) as nat;
    let q = (k - m.buffer.len()) as nat;
    let (xs, pe) = decode_rows(f, t, d, q, n)->Ok_0;
    lemma_prefix_rows(f, t, d, q, k, n);
    lemma_chunk_data(f, t, d, q, k, n);
    let (rows, p1) = decode_available(f, t, d.take(k as int), q, n)->Ok_0;
    let pp = (p1 - q) as nat;
    assert(decode_available(f, t, m.buffer, 0, n) == Ok::<(Seq<Seq<ValueModel>>, nat), DeserializeCause>((rows, pp)));
    let (ys, pe2) = decode_rows(f, t, d, p1, (n - rows.len()) as nat)->Ok_0;
    assert(t =~= e.properties.map_values(|p: PropertyModel| p.ty));
    assert(pending_rows(m) == Ok::<(Seq<Seq<ValueModel>>, nat), DeserializeCause>((rows, pp)));
    let m1 = advanced(m, rows.len(), pp);
    assert(chunk_step(m) == (m1, Ok::<Seq<Seq<ValueModel>>, DeserializeCause>(rows)));
    assert(m1.buffer =~= d.subrange(p1 as int, k as int));
    assert(k - m1.buffer.len() == p1);
    let xi = es[i as int];
    assert(xi.skip(j as int) == rows + ys);
    if j + rows.len() >= e.count {
        lemma_element_done(d, h, es, m, k, rs, rows, ys, p1, pe);
    } else {
        let j2 = j + rows.len();
        assert forall|x: int| 0 <= x < rows.len() implies rows[x] == #[trigger] xi[j + x] by {
            assert(xi.skip(j as int)[x] == xi[j + x]);
            assert((rows + ys)[x] == rows[x]);
        }
        assert forall|x: int| 0 <= x < ys.len() implies ys[x] == #[trigger] xi.skip(j2 as int)[x] by {
            assert(xi.skip(j2 as int)[x] == xi[j2 + x]);
            assert(xi.skip(j as int)[rows.len() + x] == xi[j + rows.len() + x]);
            assert((rows + ys)[rows.len() + x] == ys[x]);
        }
        assert(ys =~= xi.skip(j2 as int));
        assert forall|x: int| 0 <= x < j2 implies #[trigger] xi.take(j2 as int)[x] == (xi.take(j as int) + rows)[x] by {
            if x >= j {
                assert(rows[x - j] == xi[j + (x - j)]);
            }
        }
        assert(xi.take(j2 as int) =~= xi.take(j as int) + rows);
        assert(rs + rows =~= all_rows(es.take(i as int)) + xi.take(j2 as int));
        assert(rows_left(d, h, es, m1, k, rs + rows));
        lemma_track_close(d, h, es, m1, k, rs + rows);
    }
}

/// A chunk that reads the element to its end leaves the reader on track at the
/// next element.
#[verifier::rlimit(40)]
proof fn lemma_element_done(
    d: Seq<u8>,
    h: HeaderModel,
    es: Seq<Seq<Seq<ValueModel>>>,
    m: ChunkedModel,
    k: nat,
    rs: Seq<Seq<ValueModel>>,
    rows: Seq<Seq<ValueModel>>,
    ys: Seq<Seq<ValueModel>>,
    p1: nat,
    pe: nat,
)
    requires
        k <= d.len(),
        m.buffer.len() <= k,
        m.buffer == d.subrange(k - m.buffer.len(), k as int),
        es.len() == h.elements.len(),
        m.header == Some(h),
        m.element < h.elements.len(),
        rows_left(d, h, es, m, k, rs),
        k - m.buffer.len() <= p1 <= k,
        m.rows + rows.len() >= h.elements[m.element as int].count,
        rows.len() <= h.elements[m.element as int].count - m.rows,
        ys.len() == h.elements[m.element as int].count - m.rows - rows.len(),
        es[m.element as int].skip(m.rows as int) == rows + ys,
        decode_rows(
            h.format,
            element_types(h.elements[m.element as int]),
            d,
            (k - m.buffer.len()) as nat,
            (h.elements[m.element as int].count - m.rows) as nat,
        ) == Ok::<(Seq<Seq<ValueModel>>, nat), DeserializeCause>((rows + ys, pe)),
        decode_rows(
            h.format,
            element_types(h.elements[m.element as int]),
            d,
            p1,
            (h.elements[m.element as int].count - m.rows - rows.len()) as nat,
        ) == Ok::<(Seq<Seq<ValueModel>>, nat), DeserializeCause>((ys, pe)),
    ensures
        on_track(d, h, es, advanced(m, rows.len(), (p1 - (k - m.buffer.len())) as nat), k, rs + rows),
        advanced(m, rows.len(), (p1 - (k - m.buffer.len())) as nat).element == m.element + 1,
        advanced(m, rows.len(), (p1 - (k - m.buffer.len())) as nat).header == Some(h),
{
    let i = m.element;
    let q = (k - m.buffer.len()) as nat;
    let pp = (p1 - q) as nat;
    let m1 = advanced(m, rows.len(), pp);
    assert(m1.buffer =~= d.subrange(p1 as int, k as int));
    let xi = es[i as int];
    let j = m.rows;
    assert(ys.len() == 0);
    assert(pe == p1);
    assert(rows =~= xi.skip(j as int));
    assert(xi.take(j as int) + rows =~= xi);
    lemma_all_rows_take(es, i as int);
    assert(rs + rows =~= all_rows(es.take(i + 1 as int)));
    if i + 1 == h.elements.len() {
        assert(es.take(i + 1 as int) =~= es);
        lemma_track_close(d, h, es, m1, k, rs + rows);
    } else {
        lemma_element_begins(d, h, es, m1, k, p1);
    }
}

/// Reading a chunk keeps the reader on track: the header once the data holds all
/// of it, then the rows of the element being read.
proof fn lemma_step(
    d: Seq<u8>,
    h: HeaderModel,
    es: Seq<Seq<Seq<ValueModel>>>,
    m: ChunkedModel,
    k: nat,
    rs: Seq<Seq<ValueModel>>,
)
    requires
        decode_file(d) == Ok::<(HeaderModel, Seq<Seq<Seq<ValueModel>>>), DeserializeCause>((h, es)),
        h.elements.len() > 0,
        on_track(d, h, es, m, k, rs),
        !reader_done(m),
    ensures
        chunk_step(m).1 is Ok,
        on_track(d, h, es, chunk_step(m).0, k, rs + chunk_step(m).1->Ok_0),
        k == d.len() ==> chunk_step(m).0.header == Some(h) && chunk_step(m).0.element == (if m.header is Some {
            m.element
        } else {
            0
        }) + 1,
{
    reveal(on_track);
    match m.header {
        Some(_) => {
            lemma_step_rows(d, h, es, m, k, rs);
        },
        None => {
            let n = parse_header(d)->Ok_0.1;
            assert(m.buffer =~= d.take(k as int));
            lemma_header_prefix(d, k);
            if k >= n {
                let m1 = ChunkedModel { header: Some(h), buffer: m.buffer.skip(n as int), ..m };
                assert(load_header(m) == m1);
                assert(m1.buffer =~= d.subrange(n as int, k as int));
                assert(es.skip(0) =~= es);
                lemma_element_begins(d, h, es, m1, k, n);
                assert(rs =~= all_rows(es.take(0)));
                lemma_step_rows(d, h, es, m1, k, rs);
                assert(chunk_step(m) == chunk_step(m1));
            } else {
                assert(load_header(m) == m);
                assert(rs + seq![] =~= rs);
            }
        },
    }
}

/// With all the data there, reading chunks until every element is read gives the
/// rows that remain.
proof fn lemma_read_rest(
    d: Seq<u8>,
    h: HeaderModel,
    es: Seq<Seq<Seq<ValueModel>>>,
    m: ChunkedModel,
    rs: Seq<Seq<ValueModel>>,
    fuel: nat,
)
    requires
        decode_file(d) == Ok::<(HeaderModel, Seq<Seq<Seq<ValueModel>>>), DeserializeCause>((h, es)),
        h.elements.len() > 0,
        on_track(d, h, es, m, d.len(), rs),
        fuel >= if m.header is Some { h.elements.len() - m.element } else { h.elements.len() as int },
    ensures
        read_rest(m, fuel).1 matches Ok(xs) && rs + xs == all_rows(es),
        reader_done(read_rest(m, fuel).0),
        read_rest(m, fuel).0.header == Some(h),
    decreases fuel,
{
    reveal(on_track);
    if reader_done(m) {
        assert(rs + seq![] =~= rs);
    } else {
        lemma_step(d, h, es, m, d.len(), rs);
        let step = chunk_step(m);
        let rows = step.1->Ok_0;
        lemma_read_rest(d, h, es, step.0, rs + rows, (fuel - 1) as nat);
        let xs = read_rest(step.0, (fuel - 1) as nat).1->Ok_0;
        assert(rs + rows + xs =~= rs + (rows + xs));
    }
}

/// Feeding the rest of the data in pieces, reading a chunk after each while
/// elements remain, keeps the reader on track.
proof fn lemma_read_pieces(
    d: Seq<u8>,
    h: HeaderModel,
    es: Seq<Seq<Seq<ValueModel>>>,
    m: ChunkedModel,
    k: nat,
    rs: Seq<Seq<ValueModel>>,
    ps: Seq<Seq<u8>>,
)
    requires
        decode_file(d) == Ok::<(HeaderModel, Seq<Seq<Seq<ValueModel>>>), DeserializeCause>((h, es)),
        h.elements.len() > 0,
        on_track(d, h, es, m, k, rs),
        k + joined(ps).len() == d.len(),
        d.subrange(k as int, d.len() as int) == joined(ps),
    ensures
        read_pieces(m, ps).1 matches Ok(xs) && on_track(d, h, es, read_pieces(m, ps).0, d.len(), rs + xs),
    decreases ps.len(),
{
    if ps.len() == 0 {
        assert(rs + seq![] =~= rs);
    } else {
        let c = ps[0];
        let tail = ps.drop_first();
        let w = d.subrange(k as int, d.len() as int);
        assert(w == c + joined(tail));
        assert(d.subrange(k as int, (k + c.len()) as int) =~= w.take(c.len() as int));
        assert(w.take(c.len() as int) =~= c);
        assert(d.subrange((k + c.len()) as int, d.len() as int) =~= w.skip(c.len() as int));
        assert(w.skip(c.len() as int) =~= joined(tail));
        lemma_feed(d, h, es, m, k, rs, c);
        let fed = feed(m, c);
        let k2 = k + c.len();
        if reader_done(fed) {
            lemma_read_pieces(d, h, es, fed, k2, rs, tail);
        } else {
            lemma_step(d, h, es, fed, k2, rs);
            let step = chunk_step(fed);
            let rows = step.1->Ok_0;
            lemma_read_pieces(d, h, es, step.0, k2, rs + rows, tail);
            let xs = read_pieces(step.0, tail).1->Ok_0;
            assert(rs + rows + xs =~= rs + (rows + xs));
        }
    }
}

/// A whole file fed to a chunked reader in pieces, split anywhere, with a chunk
/// read after each piece while elements remain and then chunks read until every
/// element is read, gives every row of every element, in order, as reading the
/// whole file at once does, and no error. (A file without elements is left out:
/// there the first chunk read after the header finds no element to read.)
pub proof fn lemma_file_in_pieces(ps: Seq<Seq<u8>>)
    requires
        decode_file(joined(ps)) matches Ok((h, _)) && h.elements.len() > 0,
    ensures
        ({
            let (h, es) = decode_file(joined(ps))->Ok_0;
            let fed = read_pieces(fresh(), ps);
            let rest = read_rest(fed.0, h.elements.len());
            &&& fed.1 matches Ok(xs) && rest.1 matches Ok(ys) && xs + ys == all_rows(es)
            &&& reader_done(rest.0)
            &&& rest.0.header == Some(h)
        }),
{
    reveal(on_track);
    let d = joined(ps);
    let (h, es) = decode_file(d)->Ok_0;
    let n = parse_header(d)->Ok_0.1;
    lemma_elements_len(h, d, n, 0);
    assert(fresh().buffer =~= d.subrange(0, 0));
    assert(on_track(d, h, es, fresh(), 0, seq![]));
    assert(d.subrange(0, d.len() as int) =~= d);
    lemma_read_pieces(d, h, es, fresh(), 0, seq![], ps);
    let fed = read_pieces(fresh(), ps);
    let xs = fed.1->Ok_0;
    assert(seq![] + xs =~= xs);
    lemma_read_rest(d, h, es, fed.0, xs, h.elements.len());
}


// ---------------------------------------------------------------------------
// Reading a chunk counts its rows.
/// `m1` is `m` after `k` more rows of its element were read: no more than it has
/// left; the header stays; the rows are counted, and once all are read the next
/// element begins; the bytes read leave the front of the buffer.
pub open spec fn counted(m: ChunkedModel, m1: ChunkedModel, k: nat) -> bool {
    let c = current_def(m).count;
    &&& m.rows + k <= c
    &&& m1.header == m.header
    &&& if m.rows + k == c {
        m1.element == m.element + 1 && m1.rows == 0
    } else {
        m1.element == m.element && m1.rows == m.rows + k
    }
    &&& m1.buffer.len() <= m.buffer.len()
    &&& m1.buffer == m.buffer.skip(m.buffer.len() - m1.buffer.len())
}

/// A chunk read from a reader whose header is read, while elements remain, holds
/// rows of the current element only, and they are counted: the count of rows read
/// of it grows by the number returned, and the element ends exactly when all its
/// rows are read. So it is for a chunked reader and for a [`crate::chunked::PlyFile`].
pub proof fn lemma_chunk_counts(m: ChunkedModel)
    requires
        chunked_wf(m),
        m.header matches Some(h) && m.element < h.elements.len(),
    ensures
        chunk_step(m).1 matches Ok(rows) ==> counted(m, chunk_step(m).0, rows.len()),
        file_step(m).1 matches Ok(rows) ==> counted(m, file_step(m).0, rows.len()),
{
    let h = m.header->Some_0;
    let e = current_def(m);
    let n = (e.count - m.rows) as nat;
    crate::row::lemma_available_bounds(
        h.format,
        e.properties.map_values(|p: PropertyModel| p.ty),
        m.buffer,
        0,
        n,
    );
    assert(load_header(m) == m);
    assert(load_header_at_end(m) == m);
    match pending_rows(m) {
        Ok((rows, p)) => {
            let m1 = advanced(m, rows.len(), p);
            assert(m1.buffer.len() == m.buffer.len() - p);
            assert(m1.buffer =~= m.buffer.skip(m.buffer.len() - m1.buffer.len()));
        },
        Err(_) => {},
    }
}

// ---------------------------------------------------------------------------
// Feeding a file in pieces to a reader that waits for `end_header\n`.
/// The header of the data ends at its first `end_header\n`: no line before the
/// header's last one holds those bytes.
pub open spec fn header_ends_first(d: Seq<u8>) -> bool {
    parse_header(d) matches Ok((_, n)) && is_header_end(d, n - 1)
}

/// Feeds the pieces in turn to a reader that waits for `end_header\n`, and after
/// each reads a chunk once its header is read: the reader at the end, and the rows
/// read, or the first error.
pub open spec fn file_read_pieces(m: ChunkedModel, ps: Seq<Seq<u8>>) -> (
    ChunkedModel,
    Result<Seq<Seq<ValueModel>>, DeserializeCause>,
)
    decreases ps.len(),
{
    if ps.len() == 0 {
        (m, Ok(seq![]))
    } else {
        let fed = load_header_at_end(feed(m, ps[0]));
        if fed.header is None {
            file_read_pieces(fed, ps.drop_first())
        } else {
            let step = file_step(fed);
            match step.1 {
                Err(c) => (step.0, Err(c)),
                Ok(rows) => {
                    let rest = file_read_pieces(step.0, ps.drop_first());
                    (rest.0, then_rows(rows, rest.1))
                },
            }
        }
    }
}

/// Reads `k` more chunks with a reader that waits for `end_header\n`.
pub open spec fn file_read_rest(m: ChunkedModel, k: nat) -> (
    ChunkedModel,
    Result<Seq<Seq<ValueModel>>, DeserializeCause>,
)
    decreases k,
{
    if k == 0 {
        (m, Ok(seq![]))
    } else {
        let step = file_step(m);
        match step.1 {
            Err(c) => (step.0, Err(c)),
            Ok(rows) => {
                let rest = file_read_rest(step.0, (k - 1) as nat);
                (rest.0, then_rows(rows, rest.1))
            },
        }
    }
}

/// Waiting for `end_header\n` keeps the reader on track: the header is read once
/// the data that arrived holds all of it.
proof fn lemma_load_at_end(
    d: Seq<u8>,
    h: HeaderModel,
    es: Seq<Seq<Seq<ValueModel>>>,
    m: ChunkedModel,
    k: nat,
    rs: Seq<Seq<ValueModel>>,
)
    requires
        decode_file(d) == Ok::<(HeaderModel, Seq<Seq<Seq<ValueModel>>>), DeserializeCause>((h, es)),
        header_ends_first(d),
        on_track(d, h, es, m, k, rs),
    ensures
        on_track(d, h, es, load_header_at_end(m), k, rs),
        k >= parse_header(d)->Ok_0.1 ==> load_header_at_end(m).header == Some(h),
        m.header is Some ==> load_header_at_end(m) == m,
{
    reveal(on_track);
    let n = parse_header(d)->Ok_0.1;
    let kw = kw_end_header();
    assert(kw.len() == 11);
    lemma_header_prefix(d, n);
    if m.header is None {
        let b = m.buffer;
        assert(b =~= d.take(k as int));
        if k >= n {
            assert(occurs_at(b, kw, n - 11)) by {
                assert(b.subrange(n - 11, n as int) =~= d.subrange(n - 11, n as int));
            }
            assert forall|j: int| 0 <= j < n - 11 implies !occurs_at(b, kw, j) by {
                if occurs_at(b, kw, j) {
                    assert(b.subrange(j, j + 11) =~= d.subrange(j, j + 11));
                    assert(occurs_at(d, kw, j));
                }
            }
            assert(is_header_end(b, n - 1));
            let e = choose|e: int| is_header_end(b, e);
            lemma_header_end_unique(b, e, n - 1);
            assert(b.take(n as int) =~= d.take(n as int));
            let m1 = ChunkedModel { header: Some(h), buffer: b.skip(n as int), ..m };
            assert(load_header_at_end(m) == m1);
            assert(m1.buffer =~= d.subrange(n as int, k as int));
            if h.elements.len() == 0 {
                assert(es.len() == 0);
                assert(rs =~= all_rows(es));
            } else {
                assert(es.skip(0) =~= es);
                assert(rs =~= all_rows(es.take(0)));
                lemma_element_begins(d, h, es, m1, k, n);
            }
        } else {
            assert forall|e: int| !is_header_end(b, e) by {
                if is_header_end(b, e) {
                    assert(b.subrange(e - 10, e + 1) =~= d.subrange(e - 10, e + 1));
                    assert(occurs_at(d, kw, e - 10));
                }
            }
            assert(load_header_at_end(m) == m);
        }
    }
}

/// A chunk read by a reader that waits for `end_header\n`, once its header is read,
/// keeps it on track; with all the data there, it reads the element to its end.
proof fn lemma_file_step(
    d: Seq<u8>,
    h: HeaderModel,
    es: Seq<Seq<Seq<ValueModel>>>,
    m: ChunkedModel,
    k: nat,
    rs: Seq<Seq<ValueModel>>,
)
    requires
        on_track(d, h, es, m, k, rs),
        m.header == Some(h),
    ensures
        file_step(m).1 is Ok,
        on_track(d, h, es, file_step(m).0, k, rs + file_step(m).1->Ok_0),
        file_step(m).0.header == Some(h),
        k == d.len() && m.element < h.elements.len() ==> file_step(m).0.element == m.element + 1,
        m.element >= h.elements.len() ==> file_step(m).0 == m,
{
    reveal(on_track);
    assert(load_header_at_end(m) == m);
    if m.element < h.elements.len() {
        assert(load_header(m) == m);
        assert(file_step(m) == chunk_step(m));
        lemma_step_rows(d, h, es, m, k, rs);
    } else {
        assert(rs + seq![] =~= rs);
    }
}

proof fn lemma_file_read_pieces(
    d: Seq<u8>,
    h: HeaderModel,
    es: Seq<Seq<Seq<ValueModel>>>,
    m: ChunkedModel,
    k: nat,
    rs: Seq<Seq<ValueModel>>,
    ps: Seq<Seq<u8>>,
)
    requires
        decode_file(d) == Ok::<(HeaderModel, Seq<Seq<Seq<ValueModel>>>), DeserializeCause>((h, es)),
        header_ends_first(d),
        on_track(d, h, es, m, k, rs),
        k + joined(ps).len() == d.len(),
        d.subrange(k as int, d.len() as int) == joined(ps),
        k == d.len() ==> m.header == Some(h),
    ensures
        file_read_pieces(m, ps).1 matches Ok(xs) && on_track(
            d,
            h,
            es,
            file_read_pieces(m, ps).0,
            d.len(),
            rs + xs,
        ) && file_read_pieces(m, ps).0.header == Some(h),
    decreases ps.len(),
{
    if ps.len() == 0 {
        assert(rs + seq![] =~= rs);
    } else {
        let c = ps[0];
        let tail = ps.drop_first();
        let w = d.subrange(k as int, d.len() as int);
        assert(w == c + joined(tail));
        assert(d.subrange(k as int, (k + c.len()) as int) =~= w.take(c.len() as int));
        assert(w.take(c.len() as int) =~= c);
        assert(d.subrange((k + c.len()) as int, d.len() as int) =~= w.skip(c.len() as int));
        assert(w.skip(c.len() as int) =~= joined(tail));
        lemma_feed(d, h, es, m, k, rs, c);
        let k2 = k + c.len();
        lemma_load_at_end(d, h, es, feed(m, c), k2, rs);
        let fed = load_header_at_end(feed(m, c));
        lemma_header_prefix(d, d.len());
        if fed.header is None {
            lemma_file_read_pieces(d, h, es, fed, k2, rs, tail);
        } else {
            if feed(m, c).header is Some {
                assert(fed.header == m.header);
            }
            assert(fed.header == Some(h)) by {
                reveal(on_track);
            }
            lemma_file_step(d, h, es, fed, k2, rs);
            let step = file_step(fed);
            let rows = step.1->Ok_0;
            lemma_file_read_pieces(d, h, es, step.0, k2, rs + rows, tail);
            let xs = file_read_pieces(step.0, tail).1->Ok_0;
            assert(rs + rows + xs =~= rs + (rows + xs));
        }
    }
}

proof fn lemma_file_read_rest(
    d: Seq<u8>,
    h: HeaderModel,
    es: Seq<Seq<Seq<ValueModel>>>,
    m: ChunkedModel,
    rs: Seq<Seq<ValueModel>>,
    fuel: nat,
)
    requires
        on_track(d, h, es, m, d.len(), rs),
        m.header == Some(h),
        fuel >= h.elements.len() - m.element,
    ensures
        file_read_rest(m, fuel).1 matches Ok(xs) && rs + xs == all_rows(es),
        reader_done(file_read_rest(m, fuel).0),
    decreases fuel,
{
    if fuel == 0 {
        reveal(on_track);
        assert(rs + seq![] =~= rs);
    } else {
        lemma_file_step(d, h, es, m, d.len(), rs);
        let step = file_step(m);
        let rows = step.1->Ok_0;
        assert(on_track(d, h, es, step.0, d.len(), rs + rows));
        lemma_file_read_rest(d, h, es, step.0, rs + rows, (fuel - 1) as nat);
        let xs = file_read_rest(step.0, (fuel - 1) as nat).1->Ok_0;
        assert(rs + rows + xs =~= rs + (rows + xs));
    }
}

/// A whole file fed in pieces, split anywhere, to a reader that waits for
/// `end_header\n`, with a chunk read after each piece once the header is read and
/// then one chunk for each element, gives every row of every element, in order, as
/// reading the whole file at once does, and no error. (It is stated for data whose
/// header ends at its first `end_header\n`: a comment holding those bytes would be
/// taken for the header's end.)
pub proof fn lemma_file_reader_in_pieces(ps: Seq<Seq<u8>>)
    requires
        decode_file(joined(ps)) is Ok,
        header_ends_first(joined(ps)),
    ensures
        ({
            let (h, es) = decode_file(joined(ps))->Ok_0;
            let fed = file_read_pieces(fresh(), ps);
            let rest = file_read_rest(fed.0, h.elements.len());
            &&& fed.1 matches Ok(xs) && rest.1 matches Ok(ys) && xs + ys == all_rows(es)
            &&& reader_done(rest.0)
            &&& rest.0.header == Some(h)
        }),
{
    reveal(on_track);
    let d = joined(ps);
    let (h, es) = decode_file(d)->Ok_0;
    let n = parse_header(d)->Ok_0.1;
    lemma_elements_len(h, d, n, 0);
    lemma_header_prefix(d, 0);
    assert(fresh().buffer =~= d.subrange(0, 0));
    assert(on_track(d, h, es, fresh(), 0, seq![]));
    assert(d.subrange(0, d.len() as int) =~= d);
    lemma_file_read_pieces(d, h, es, fresh(), 0, seq![], ps);
    let fed = file_read_pieces(fresh(), ps);
    let xs = fed.1->Ok_0;
    assert(seq![] + xs =~= xs);
    lemma_file_read_rest(d, h, es, fed.0, xs, h.elements.len());
    lemma_file_rest_header(d, h, es, fed.0, xs, h.elements.len());
}

proof fn lemma_file_rest_header(
    d: Seq<u8>,
    h: HeaderModel,
    es: Seq<Seq<Seq<ValueModel>>>,
    m: ChunkedModel,
    rs: Seq<Seq<ValueModel>>,
    fuel: nat,
)
    requires
        on_track(d, h, es, m, d.len(), rs),
        m.header == Some(h),
    ensures
        file_read_rest(m, fuel).0.header == Some(h),
    decreases fuel,
{
    if fuel > 0 {
        lemma_file_step(d, h, es, m, d.len(), rs);
        let step = file_step(m);
        lemma_file_rest_header(d, h, es, step.0, rs + step.1->Ok_0, (fuel - 1) as nat);
    }
}

} // verus!
