//! The header writer and the header reader agree: a header reads back from its text.

use vstd::prelude::*;
use vstd::utf8::valid_utf8;
use crate::header::{
    all_valid_utf8, closed_elements, element_block, element_blocks, element_line, format_line,
    header_finish, header_lines, header_step, header_text_with, list_type_name, parse_header, property_line,
    property_lines, tagged_line, tagged_lines, with_property, ElementModel, HeaderModel,
    ParseState, PropertyModel, PropertyType, initial_state, lemma_ascii_valid_utf8,
};
use crate::scalar::{
    format_name, format_named, lemma_scalar_names, scalar_keyword, scalar_type_named, PlyFormat,
    ScalarType,
};
use crate::text::{
    decimal, is_space, join_space, no_ws, ws_at, lemma_decimal, lemma_decimal_roundtrip, lemma_line_len_exact,
    lemma_join_no_newline, lemma_split_concat, lemma_split_join,
    lemma_split_last, lemma_split_single, lemma_split_space_suffix,
    lemma_split_ws_words,
    line_len, split_ws, unsigned_value, signed_decimal,
};
use crate::words::{
    kw_comment, kw_element, kw_end_header, kw_format, kw_list, kw_obj_info, kw_ply, kw_property,
    kw_ascii, kw_binary_big_endian, kw_binary_little_endian,
};

verus! {

/// A non-empty UTF-8 word without whitespace.
pub open spec fn plain_word(w: Seq<u8>) -> bool {
    &&& w.len() > 0
    &&& valid_utf8(w)
    &&& no_ws(w)
}

/// A text of UTF-8 words joined by single spaces, with no space at either end.
pub open spec fn plain_text(c: Seq<u8>) -> bool {
    &&& all_valid_utf8(split_ws(c))
    &&& join_space(split_ws(c)) == c
}

pub open spec fn plain_property(p: PropertyModel) -> bool {
    plain_word(p.name)
}

pub open spec fn plain_element(e: ElementModel) -> bool {
    &&& plain_word(e.name)
    &&& e.count <= usize::MAX
    &&& forall|j: int| 0 <= j < e.properties.len() ==> plain_property(#[trigger] e.properties[j])
}

/// A header whose text reads back as the header itself: its version and names are
/// words, its comments and object information are plain texts, and counts fit in `usize`.
pub open spec fn header_well_formed(h: HeaderModel) -> bool {
    &&& plain_word(h.version)
    &&& forall|i: int| 0 <= i < h.comments.len() ==> plain_text(#[trigger] h.comments[i])
    &&& forall|i: int| 0 <= i < h.obj_info.len() ==> plain_text(#[trigger] h.obj_info[i])
    &&& forall|i: int| 0 <= i < h.elements.len() ==> plain_element(#[trigger] h.elements[i])
}

pub open spec fn no_newline(s: Seq<u8>) -> bool {
    forall|i: int| 0 <= i < s.len() ==> #[trigger] s[i] != 10
}

pub open spec fn ascii_word(w: Seq<u8>) -> bool {
    &&& w.len() > 0
    &&& forall|i: int| 0 <= i < w.len() ==> #[trigger] w[i] < 128 && !is_space(w[i])
}

proof fn lemma_ascii_word_plain(w: Seq<u8>)
    requires
        ascii_word(w),
    ensures
        plain_word(w),
{
    lemma_ascii_valid_utf8(w);
    assert forall|i: int| 0 <= i < w.len() implies ws_at(w, i) == 0 by {
        assert(w[i] < 128 && !is_space(w[i]));
    }
}

proof fn lemma_keywords()
    ensures
        ascii_word(kw_ply()),
        ascii_word(kw_format()),
        ascii_word(kw_comment()),
        ascii_word(kw_obj_info()),
        ascii_word(kw_element()),
        ascii_word(kw_property()),
        ascii_word(kw_list()),
        kw_format() != kw_comment(),
        kw_format() != kw_obj_info(),
        kw_comment() != kw_obj_info(),
        kw_format() != kw_element(),
        kw_comment() != kw_element(),
        kw_obj_info() != kw_element(),
        kw_format() != kw_property(),
        kw_comment() != kw_property(),
        kw_obj_info() != kw_property(),
        kw_element() != kw_property(),
{
    assert(kw_format().len() != kw_comment().len());
    assert(kw_format()[0] != kw_obj_info()[0]);
    assert(kw_comment().len() != kw_obj_info().len());
    assert(kw_format().len() != kw_element().len());
    assert(kw_comment()[0] != kw_element()[0]);
    assert(kw_obj_info()[0] != kw_element()[0]);
    assert(kw_format().len() != kw_property().len());
    assert(kw_comment().len() != kw_property().len());
    assert(kw_obj_info()[0] != kw_property()[0]);
    assert(kw_element().len() != kw_property().len());
}

proof fn lemma_format_names(f: PlyFormat)
    ensures
        ascii_word(format_name(f)),
        format_named(format_name(f)) == Some(f),
{
    assert(kw_ascii().len() != kw_binary_little_endian().len());
    assert(kw_ascii().len() != kw_binary_big_endian().len());
    assert(kw_binary_little_endian().len() != kw_binary_big_endian().len());
}

proof fn lemma_scalar_keyword_word(t: ScalarType)
    ensures
        ascii_word(scalar_keyword(t)),
        scalar_keyword(t) != kw_list(),
        scalar_type_named(scalar_keyword(t)) == Some(t),
{
    lemma_scalar_names(t);
    assert(scalar_keyword(t)[0] != kw_list()[0]);
}


proof fn lemma_list_type_word(t: ScalarType, sized: bool)
    ensures
        ascii_word(list_type_name(t, sized)),
        scalar_type_named(list_type_name(t, sized)) == Some(t),
{
    lemma_scalar_names(t);
}

/// A line that ends in its only '\n' at `pos` and reads without error moves the
/// reader past it.
proof fn lemma_header_line(s: Seq<u8>, pos: nat, st: ParseState, line: Seq<u8>)
    requires
        line.len() > 0,
        line.last() == 10,
        no_newline(line.drop_last()),
        pos + line.len() <= s.len(),
        s.subrange(pos as int, (pos + line.len()) as int) == line,
        line != kw_end_header(),
        header_step(st, line) is Ok,
    ensures
        header_lines(s, pos, st) == header_lines(s, pos + line.len(), header_step(st, line)->Ok_0),
{
    let t = s.skip(pos as int);
    let k = line.len() - 1;
    assert forall|m: int| 0 <= m < k implies #[trigger] t[m] != 10 by {
        assert(t[m] == line[m]);
        assert(line.drop_last()[m] == line[m]);
    }
    assert(t[k] == line[k]);
    lemma_line_len_exact(t, k);
}

/// The line `end_header\n` at `pos` ends the header there.
proof fn lemma_header_end(s: Seq<u8>, pos: nat, st: ParseState)
    requires
        pos + kw_end_header().len() <= s.len(),
        s.subrange(pos as int, (pos + kw_end_header().len()) as int) == kw_end_header(),
    ensures
        header_lines(s, pos, st) == header_finish(st, pos + kw_end_header().len()),
{
    let t = s.skip(pos as int);
    let line = kw_end_header();
    let k = line.len() - 1;
    assert forall|m: int| 0 <= m < k implies #[trigger] t[m] != 10 by {
        assert(t[m] == line[m]);
    }
    assert(t[k] == line[k]);
    lemma_line_len_exact(t, k);
}

/// A comment or object-information line of a plain text.
proof fn lemma_tagged_words(tag: Seq<u8>, c: Seq<u8>)
    requires
        ascii_word(tag),
        plain_text(c),
    ensures
        split_ws(tagged_line(tag, c)) == seq![tag] + split_ws(c),
        no_newline(tagged_line(tag, c).drop_last()),
        tagged_line(tag, c).last() == 10,
        tagged_line(tag, c).len() > 0,
{
    let line = tagged_line(tag, c);
    assert(line =~= tag + seq![32u8] + (c + seq![10u8]));
    lemma_split_concat(tag, 32u8, c + seq![10u8]);
    lemma_split_single(tag);
    lemma_split_space_suffix(c, seq![10u8]);
    lemma_split_ws_words(c);
    lemma_join_no_newline(split_ws(c));
    assert(line.drop_last() =~= tag + seq![32u8] + c);
    assert forall|i: int| 0 <= i < line.drop_last().len() implies #[trigger] line.drop_last()[i] != 10 by {
        if i < tag.len() {
            assert(line.drop_last()[i] == tag[i]);
        } else if i > tag.len() {
            assert(line.drop_last()[i] == c[i - tag.len() - 1]);
        }
    }
}

proof fn lemma_step_comment(st: ParseState, c: Seq<u8>)
    requires
        plain_text(c),
    ensures
        header_step(st, tagged_line(kw_comment(), c)) == Ok::<ParseState, crate::error::DeserializeCause>(
            ParseState { comments: st.comments.push(c), ..st },
        ),
        tagged_line(kw_comment(), c) != kw_end_header(),
{
    reveal(header_step);
    lemma_keywords();
    lemma_tagged_words(kw_comment(), c);
    let w = split_ws(tagged_line(kw_comment(), c));
    lemma_ascii_word_plain(kw_comment());
    assert(w.skip(1) =~= split_ws(c));
    assert forall|i: int| 0 <= i < w.len() implies valid_utf8(#[trigger] w[i]) by {
        if i > 0 {
            assert(w[i] == split_ws(c)[i - 1]);
        }
    }
    assert(tagged_line(kw_comment(), c)[0] != kw_end_header()[0]);
}

proof fn lemma_step_obj_info(st: ParseState, c: Seq<u8>)
    requires
        plain_text(c),
    ensures
        header_step(st, tagged_line(kw_obj_info(), c)) == Ok::<ParseState, crate::error::DeserializeCause>(
            ParseState { obj_info: st.obj_info.push(c), ..st },
        ),
        tagged_line(kw_obj_info(), c) != kw_end_header(),
{
    reveal(header_step);
    lemma_keywords();
    lemma_tagged_words(kw_obj_info(), c);
    let w = split_ws(tagged_line(kw_obj_info(), c));
    lemma_ascii_word_plain(kw_obj_info());
    assert(w.skip(1) =~= split_ws(c));
    assert forall|i: int| 0 <= i < w.len() implies valid_utf8(#[trigger] w[i]) by {
        if i > 0 {
            assert(w[i] == split_ws(c)[i - 1]);
        }
    }
    assert(tagged_line(kw_obj_info(), c)[0] != kw_end_header()[0]);
}


proof fn lemma_join3(a: Seq<u8>, b: Seq<u8>, c: Seq<u8>)
    ensures
        join_space(seq![a, b, c]) == a + seq![32u8] + b + seq![32u8] + c,
{
    assert(seq![a, b, c].drop_last() =~= seq![a, b]);
    assert(seq![a, b].drop_last() =~= seq![a]);
    assert(seq![a][0] == a);
    assert(join_space(seq![a]) == a);
    assert(seq![a, b].last() == b);
    assert(join_space(seq![a, b]) == a + seq![32u8] + b);
    assert(seq![a, b, c].last() == c);
}

proof fn lemma_join5(a: Seq<u8>, b: Seq<u8>, c: Seq<u8>, d: Seq<u8>, e: Seq<u8>)
    ensures
        join_space(seq![a, b, c, d, e]) == a + seq![32u8] + b + seq![32u8] + c + seq![32u8] + d + seq![
            32u8,
        ] + e,
{
    assert(seq![a, b, c, d, e].drop_last() =~= seq![a, b, c, d]);
    assert(seq![a, b, c, d].drop_last() =~= seq![a, b, c]);
    lemma_join3(a, b, c);
    assert(seq![a, b, c, d].last() == d);
    assert(seq![a, b, c, d, e].last() == e);
    assert(join_space(seq![a, b, c, d]) == join_space(seq![a, b, c]) + seq![32u8] + d);
    assert(join_space(seq![a, b, c, d, e]) == join_space(seq![a, b, c, d]) + seq![32u8] + e);
}

/// A line of plain words.
proof fn lemma_word_line(ws: Seq<Seq<u8>>)
    requires
        ws.len() >= 1,
        forall|i: int| 0 <= i < ws.len() ==> plain_word(#[trigger] ws[i]),
    ensures
        split_ws(join_space(ws) + seq![10u8]) == ws,
        no_newline(join_space(ws)),
        all_valid_utf8(ws),
{
    assert forall|i: int| 0 <= i < ws.len() implies (#[trigger] ws[i]).len() > 0 by {
        assert(plain_word(ws[i]));
    }
    assert forall|i: int| 0 <= i < ws.len() implies no_ws(#[trigger] ws[i]) by {
        assert(plain_word(ws[i]));
    }
    lemma_split_join(ws);
    lemma_split_space_suffix(join_space(ws), seq![10u8]);
    lemma_join_no_newline(ws);
    assert forall|i: int| 0 <= i < ws.len() implies valid_utf8(#[trigger] ws[i]) by {
        assert(plain_word(ws[i]));
    }
}

proof fn lemma_step_format(st: ParseState, f: PlyFormat, v: Seq<u8>)
    requires
        plain_word(v),
    ensures
        header_step(st, format_line(f, v)) == Ok::<ParseState, crate::error::DeserializeCause>(
            ParseState { format: Some(f), version: v, ..st },
        ),
        format_line(f, v) != kw_end_header(),
        no_newline(format_line(f, v).drop_last()),
        format_line(f, v).last() == 10,
{
    reveal(header_step);
    let ws = seq![kw_format(), format_name(f), v];
    lemma_keywords();
    lemma_format_names(f);
    lemma_ascii_word_plain(kw_format());
    lemma_ascii_word_plain(format_name(f));
    lemma_join3(kw_format(), format_name(f), v);
    assert(format_line(f, v) =~= join_space(ws) + seq![10u8]);
    lemma_word_line(ws);
    assert(format_line(f, v).drop_last() =~= join_space(ws));
    assert(format_line(f, v)[0] != kw_end_header()[0]);
}

proof fn lemma_step_element(st: ParseState, e: ElementModel)
    requires
        plain_word(e.name),
        e.count <= usize::MAX,
        e.properties.len() == 0,
    ensures
        header_step(st, element_line(e)) == Ok::<ParseState, crate::error::DeserializeCause>(
            ParseState { elements: closed_elements(st), current: Some(e), ..st },
        ),
        element_line(e) != kw_end_header(),
        no_newline(element_line(e).drop_last()),
        element_line(e).last() == 10,
{
    reveal(header_step);
    let d = decimal(e.count);
    let ws = seq![kw_element(), e.name, d];
    lemma_keywords();
    lemma_decimal(e.count);
    lemma_decimal_roundtrip(e.count as int);
    assert(signed_decimal(e.count as int) == d);
    assert forall|i: int| 0 <= i < d.len() implies #[trigger] d[i] < 128 && !is_space(d[i]) by {
        assert(crate::text::is_digit(d[i]));
    }
    lemma_ascii_word_plain(d);
    lemma_ascii_word_plain(kw_element());
    lemma_join3(kw_element(), e.name, d);
    assert(element_line(e) =~= join_space(ws) + seq![10u8]);
    lemma_word_line(ws);
    assert(element_line(e).drop_last() =~= join_space(ws));
    assert(element_line(e)[0] != kw_end_header()[0] || element_line(e)[1] != kw_end_header()[1]);
    let m = ElementModel { name: e.name, count: e.count, properties: seq![] };
    assert(m.properties =~= e.properties);
    assert(m == e);
}

proof fn lemma_step_property(st: ParseState, cur: ElementModel, p: PropertyModel, sized: bool)
    requires
        plain_word(p.name),
        st.current == Some(cur),
    ensures
        header_step(st, property_line(p, sized)) == Ok::<ParseState, crate::error::DeserializeCause>(
            with_property(st, cur, p),
        ),
        property_line(p, sized) != kw_end_header(),
        no_newline(property_line(p, sized).drop_last()),
        property_line(p, sized).last() == 10,
{
    reveal(header_step);
    lemma_keywords();
    lemma_ascii_word_plain(kw_property());
    match p.ty {
        PropertyType::Scalar(t) => {
            let ws = seq![kw_property(), scalar_keyword(t), p.name];
            lemma_scalar_keyword_word(t);
            lemma_ascii_word_plain(scalar_keyword(t));
            lemma_join3(kw_property(), scalar_keyword(t), p.name);
            assert(property_line(p, sized) =~= join_space(ws) + seq![10u8]);
            lemma_word_line(ws);
            assert(property_line(p, sized).drop_last() =~= join_space(ws));
            let q = PropertyModel { name: p.name, ty: PropertyType::Scalar(t) };
            assert(q == p);
        },
        PropertyType::List { count_type, data_type } => {
            let ws = seq![
                kw_property(),
                kw_list(),
                scalar_keyword(count_type),
                list_type_name(data_type, sized),
                p.name,
            ];
            lemma_scalar_keyword_word(count_type);
            lemma_list_type_word(data_type, sized);
            lemma_ascii_word_plain(kw_list());
            lemma_ascii_word_plain(scalar_keyword(count_type));
            lemma_ascii_word_plain(list_type_name(data_type, sized));
            lemma_join5(
                kw_property(),
                kw_list(),
                scalar_keyword(count_type),
                list_type_name(data_type, sized),
                p.name,
            );
            assert(property_line(p, sized) =~= join_space(ws) + seq![10u8]);
            assert forall|i: int| 0 <= i < ws.len() implies plain_word(#[trigger] ws[i]) by {}
            lemma_word_line(ws);
            assert(property_line(p, sized).drop_last() =~= join_space(ws));
            let q = PropertyModel { name: p.name, ty: PropertyType::List { count_type, data_type } };
            assert(q == p);
        },
    }
    assert(property_line(p, sized)[0] != kw_end_header()[0]);
}


/// Where `a + b` stands in `s` at `pos`, `a` stands at `pos` and `b` right after it.
proof fn lemma_subrange_split(s: Seq<u8>, pos: int, a: Seq<u8>, b: Seq<u8>)
    requires
        0 <= pos,
        pos + a.len() + b.len() <= s.len(),
        s.subrange(pos, pos + a.len() + b.len()) == a + b,
    ensures
        s.subrange(pos, pos + a.len()) == a,
        s.subrange(pos + a.len(), pos + a.len() + b.len()) == b,
{
    let whole = s.subrange(pos, pos + a.len() + b.len());
    assert forall|i: int| 0 <= i < a.len() implies #[trigger] s.subrange(pos, pos + a.len())[i] == a[i] by {
        assert(whole[i] == (a + b)[i]);
    }
    assert forall|i: int| 0 <= i < b.len() implies #[trigger] s.subrange(
        pos + a.len(),
        pos + a.len() + b.len(),
    )[i] == b[i] by {
        assert(whole[a.len() + i] == (a + b)[a.len() + i]);
    }
    assert(s.subrange(pos, pos + a.len()) =~= a);
    assert(s.subrange(pos + a.len(), pos + a.len() + b.len()) =~= b);
}

/// Comment lines read into the comments, in order.
proof fn lemma_comment_lines(s: Seq<u8>, pos: nat, st: ParseState, texts: Seq<Seq<u8>>)
    requires
        forall|i: int| 0 <= i < texts.len() ==> plain_text(#[trigger] texts[i]),
        pos + tagged_lines(kw_comment(), texts).len() <= s.len(),
        s.subrange(pos as int, (pos + tagged_lines(kw_comment(), texts).len()) as int) == tagged_lines(
            kw_comment(),
            texts,
        ),
    ensures
        header_lines(s, pos, st) == header_lines(
            s,
            pos + tagged_lines(kw_comment(), texts).len(),
            ParseState { comments: st.comments + texts, ..st },
        ),
    decreases texts.len(),
{
    if texts.len() == 0 {
        assert(st.comments + texts =~= st.comments);
        let st2 = ParseState { comments: st.comments + texts, ..st };
        assert(st2 == st);
    } else {
        let init = texts.drop_last();
        let c = texts.last();
        let ti = tagged_lines(kw_comment(), init);
        let line = tagged_line(kw_comment(), c);
        assert(tagged_lines(kw_comment(), texts) == ti + line);
        assert forall|i: int| 0 <= i < init.len() implies plain_text(#[trigger] init[i]) by {
            assert(init[i] == texts[i]);
        }
        lemma_subrange_split(s, pos as int, ti, line);
        lemma_comment_lines(s, pos, st, init);
        let st1 = ParseState { comments: st.comments + init, ..st };
        assert(plain_text(texts[texts.len() - 1]));
        lemma_step_comment(st1, c);
        lemma_tagged_words(kw_comment(), c);
        lemma_header_line(s, pos + ti.len(), st1, line);
        assert((st.comments + init).push(c) =~= st.comments + texts);
    }
}

/// Object-information lines read into the object information, in order.
proof fn lemma_obj_info_lines(s: Seq<u8>, pos: nat, st: ParseState, texts: Seq<Seq<u8>>)
    requires
        forall|i: int| 0 <= i < texts.len() ==> plain_text(#[trigger] texts[i]),
        pos + tagged_lines(kw_obj_info(), texts).len() <= s.len(),
        s.subrange(pos as int, (pos + tagged_lines(kw_obj_info(), texts).len()) as int) == tagged_lines(
            kw_obj_info(),
            texts,
        ),
    ensures
        header_lines(s, pos, st) == header_lines(
            s,
            pos + tagged_lines(kw_obj_info(), texts).len(),
            ParseState { obj_info: st.obj_info + texts, ..st },
        ),
    decreases texts.len(),
{
    if texts.len() == 0 {
        assert(st.obj_info + texts =~= st.obj_info);
        let st2 = ParseState { obj_info: st.obj_info + texts, ..st };
        assert(st2 == st);
    } else {
        let init = texts.drop_last();
        let c = texts.last();
        let ti = tagged_lines(kw_obj_info(), init);
        let line = tagged_line(kw_obj_info(), c);
        assert(tagged_lines(kw_obj_info(), texts) == ti + line);
        assert forall|i: int| 0 <= i < init.len() implies plain_text(#[trigger] init[i]) by {
            assert(init[i] == texts[i]);
        }
        lemma_subrange_split(s, pos as int, ti, line);
        lemma_obj_info_lines(s, pos, st, init);
        let st1 = ParseState { obj_info: st.obj_info + init, ..st };
        assert(plain_text(texts[texts.len() - 1]));
        lemma_step_obj_info(st1, c);
        lemma_tagged_words(kw_obj_info(), c);
        lemma_header_line(s, pos + ti.len(), st1, line);
        assert((st.obj_info + init).push(c) =~= st.obj_info + texts);
    }
}

/// Property lines read into the element being read, in order.
proof fn lemma_property_lines(
    s: Seq<u8>,
    pos: nat,
    st: ParseState,
    cur: ElementModel,
    ps: Seq<PropertyModel>,
    sized: bool,
)
    requires
        forall|i: int| 0 <= i < ps.len() ==> plain_property(#[trigger] ps[i]),
        st.current == Some(cur),
        pos + property_lines(ps, sized).len() <= s.len(),
        s.subrange(pos as int, (pos + property_lines(ps, sized).len()) as int) == property_lines(ps, sized),
    ensures
        header_lines(s, pos, st) == header_lines(
            s,
            pos + property_lines(ps, sized).len(),
            ParseState {
                current: Some(ElementModel { properties: cur.properties + ps, ..cur }),
                ..st
            },
        ),
    decreases ps.len(),
{
    if ps.len() == 0 {
        assert(cur.properties + ps =~= cur.properties);
        let e2 = ElementModel { properties: cur.properties + ps, ..cur };
        assert(e2 == cur);
        let st2 = ParseState { current: Some(e2), ..st };
        assert(st2 == st);
    } else {
        let init = ps.drop_last();
        let p = ps.last();
        let pi = property_lines(init, sized);
        let line = property_line(p, sized);
        assert(property_lines(ps, sized) == pi + line);
        assert forall|i: int| 0 <= i < init.len() implies plain_property(#[trigger] init[i]) by {
            assert(init[i] == ps[i]);
        }
        lemma_subrange_split(s, pos as int, pi, line);
        lemma_property_lines(s, pos, st, cur, init, sized);
        let cur1 = ElementModel { properties: cur.properties + init, ..cur };
        let st1 = ParseState { current: Some(cur1), ..st };
        assert(plain_property(ps[ps.len() - 1]));
        lemma_step_property(st1, cur1, p, sized);
        lemma_header_line(s, pos + pi.len(), st1, line);
        assert((cur.properties + init).push(p) =~= cur.properties + ps);
    }
}

/// The state after the element blocks `es`.
pub open spec fn after_elements(st: ParseState, es: Seq<ElementModel>) -> ParseState {
    if es.len() == 0 {
        st
    } else {
        ParseState { elements: closed_elements(st) + es.drop_last(), current: Some(es.last()), ..st }
    }
}

proof fn lemma_after_elements_closed(st: ParseState, es: Seq<ElementModel>)
    ensures
        closed_elements(after_elements(st, es)) == closed_elements(st) + es,
{
    if es.len() == 0 {
        assert(closed_elements(st) + es =~= closed_elements(st));
    } else {
        assert((closed_elements(st) + es.drop_last()).push(es.last()) =~= closed_elements(st) + es);
    }
}

/// Element blocks read into the elements, in order.
proof fn lemma_element_blocks(s: Seq<u8>, pos: nat, st: ParseState, es: Seq<ElementModel>, sized: bool)
    requires
        forall|i: int| 0 <= i < es.len() ==> plain_element(#[trigger] es[i]),
        pos + element_blocks(es, sized).len() <= s.len(),
        s.subrange(pos as int, (pos + element_blocks(es, sized).len()) as int) == element_blocks(es, sized),
    ensures
        header_lines(s, pos, st) == header_lines(s, pos + element_blocks(es, sized).len(), after_elements(st, es)),
    decreases es.len(),
{
    if es.len() > 0 {
        let init = es.drop_last();
        let e = es.last();
        let bi = element_blocks(init, sized);
        let e0 = ElementModel { properties: seq![], ..e };
        let el = element_line(e);
        let pl = property_lines(e.properties, sized);
        assert(element_blocks(es, sized) == bi + (el + pl));
        assert forall|i: int| 0 <= i < init.len() implies plain_element(#[trigger] init[i]) by {
            assert(init[i] == es[i]);
        }
        assert(plain_element(es[es.len() - 1]));
        lemma_subrange_split(s, pos as int, bi, el + pl);
        lemma_subrange_split(s, (pos + bi.len()) as int, el, pl);
        lemma_element_blocks(s, pos, st, init, sized);
        let st1 = after_elements(st, init);
        lemma_step_element(st1, e0);
        assert(element_line(e0) == el);
        let p1 = pos + bi.len();
        lemma_header_line(s, p1, st1, el);
        let st2 = ParseState { elements: closed_elements(st1), current: Some(e0), ..st1 };
        let p2 = p1 + el.len();
        assert forall|i: int| 0 <= i < e.properties.len() implies plain_property(
            #[trigger] e.properties[i],
        ) by {}
        lemma_property_lines(s, p2, st2, e0, e.properties, sized);
        assert(e0.properties + e.properties =~= e.properties);
        let e2 = ElementModel { properties: e0.properties + e.properties, ..e0 };
        assert(e2 == e);
        lemma_after_elements_closed(st, init);
        assert(closed_elements(st1) =~= closed_elements(st) + es.drop_last());
    }
}

/// A well-formed header reads back from its own text, whatever follows the text and
/// whichever names the element types of lists are written with, and the reader
/// stops right after `end_header`.
#[verifier::rlimit(40)]
pub proof fn lemma_header_roundtrip(h: HeaderModel, sized: bool, rest: Seq<u8>)
    requires
        header_well_formed(h),
    ensures
        parse_header(header_text_with(h, sized) + rest) == Ok::<(HeaderModel, nat), crate::error::DeserializeCause>(
            (h, header_text_with(h, sized).len()),
        ),
{
    let l0 = kw_ply() + seq![10u8];
    let fl = format_line(h.format, h.version);
    let cl = tagged_lines(kw_comment(), h.comments);
    let ol = tagged_lines(kw_obj_info(), h.obj_info);
    let el = element_blocks(h.elements, sized);
    let end = kw_end_header();
    let text = header_text_with(h, sized);
    let s = text + rest;
    assert(text == l0 + fl + cl + ol + el + end);
    // the first line
    lemma_keywords();
    assert forall|m: int| 0 <= m < 3 implies #[trigger] s[m] != 10 by {
        assert(s[m] == kw_ply()[m]);
    }
    assert(s[3] == 10u8);
    lemma_line_len_exact(s, 3);
    assert(s.take(4) =~= l0);
    lemma_split_last(kw_ply());
    // the format line
    let p1: nat = 4;
    lemma_step_format(initial_state(), h.format, h.version);
    assert(s.subrange(p1 as int, (p1 + fl.len()) as int) =~= fl);
    lemma_header_line(s, p1, initial_state(), fl);
    let st1 = ParseState { format: Some(h.format), version: h.version, ..initial_state() };
    // the comments
    let p2 = p1 + fl.len();
    assert(s.subrange(p2 as int, (p2 + cl.len()) as int) =~= cl);
    lemma_comment_lines(s, p2, st1, h.comments);
    let st2 = ParseState { comments: st1.comments + h.comments, ..st1 };
    // the object information
    let p3 = p2 + cl.len();
    assert(s.subrange(p3 as int, (p3 + ol.len()) as int) =~= ol);
    lemma_obj_info_lines(s, p3, st2, h.obj_info);
    let st3 = ParseState { obj_info: st2.obj_info + h.obj_info, ..st2 };
    // the elements
    let p4 = p3 + ol.len();
    assert(s.subrange(p4 as int, (p4 + el.len()) as int) =~= el);
    lemma_element_blocks(s, p4, st3, h.elements, sized);
    let st4 = after_elements(st3, h.elements);
    // the end
    let p5 = p4 + el.len();
    assert(s.subrange(p5 as int, (p5 + end.len()) as int) =~= end);
    lemma_header_end(s, p5, st4);
    lemma_after_elements_closed(st3, h.elements);
    assert(closed_elements(st3) =~= Seq::<ElementModel>::empty());
    assert(closed_elements(st4) =~= h.elements);
    assert(st4.comments =~= h.comments);
    assert(st4.obj_info =~= h.obj_info);
    assert(p5 + end.len() == text.len());
}


// ---------------------------------------------------------------------------
// The text of a header whose texts are UTF-8 is UTF-8.
/// Every text of a header is UTF-8: its version, comments, object information and
/// the names of its elements and properties.
pub open spec fn header_strings_valid(h: HeaderModel) -> bool {
    &&& valid_utf8(h.version)
    &&& forall|i: int| 0 <= i < h.comments.len() ==> valid_utf8(#[trigger] h.comments[i])
    &&& forall|i: int| 0 <= i < h.obj_info.len() ==> valid_utf8(#[trigger] h.obj_info[i])
    &&& forall|i: int| 0 <= i < h.elements.len() ==> valid_utf8(#[trigger] h.elements[i].name)
    &&& forall|i: int, j: int|
        0 <= i < h.elements.len() && 0 <= j < h.elements[i].properties.len() ==> valid_utf8(
            #[trigger] h.elements[i].properties[j].name,
        )
}

/// The texts of a header value are UTF-8, as all strings are.
pub proof fn lemma_header_strings(h: &crate::header::PlyHeader)
    ensures
        header_strings_valid(h@),
{
    broadcast use vstd::utf8::encode_utf8_valid_utf8;
    let m = h@;
    assert forall|i: int, j: int|
        0 <= i < m.elements.len() && 0 <= j < m.elements[i].properties.len() implies valid_utf8(
        #[trigger] m.elements[i].properties[j].name,
    ) by {
        assert(m.elements[i] == h.elem_defs@[i]@);
        assert(m.elements[i].properties[j] == h.elem_defs@[i].properties@[j]@);
    }
    assert forall|i: int| 0 <= i < m.elements.len() implies valid_utf8(#[trigger] m.elements[i].name) by {
        assert(m.elements[i] == h.elem_defs@[i]@);
    }
}

proof fn lemma_ascii_text(s: Seq<u8>)
    requires
        forall|i: int| 0 <= i < s.len() ==> #[trigger] s[i] < 128,
    ensures
        valid_utf8(s),
{
    lemma_ascii_valid_utf8(s);
}

proof fn lemma_word_text(w: Seq<u8>)
    requires
        ascii_word(w),
    ensures
        valid_utf8(w),
{
    lemma_ascii_valid_utf8(w);
}

proof fn lemma_decimal_text(n: nat)
    ensures
        valid_utf8(decimal(n)),
{
    lemma_decimal(n);
    assert forall|i: int| 0 <= i < decimal(n).len() implies #[trigger] decimal(n)[i] < 128 by {
        assert(crate::text::is_digit(decimal(n)[i]));
    }
    lemma_ascii_valid_utf8(decimal(n));
}

proof fn lemma_cat(a: Seq<u8>, b: Seq<u8>)
    requires
        valid_utf8(a),
        valid_utf8(b),
    ensures
        valid_utf8(a + b),
{
    vstd::utf8::valid_utf8_concat(a, b);
}

proof fn lemma_space_newline()
    ensures
        valid_utf8(seq![32u8]),
        valid_utf8(seq![10u8]),
        valid_utf8(kw_end_header()),
        valid_utf8(Seq::<u8>::empty()),
{
    lemma_ascii_text(seq![32u8]);
    lemma_ascii_text(seq![10u8]);
    lemma_ascii_text(kw_end_header());
    lemma_ascii_text(Seq::<u8>::empty());
}

proof fn lemma_tagged_lines_text(tag: Seq<u8>, texts: Seq<Seq<u8>>)
    requires
        ascii_word(tag),
        forall|i: int| 0 <= i < texts.len() ==> valid_utf8(#[trigger] texts[i]),
    ensures
        valid_utf8(tagged_lines(tag, texts)),
    decreases texts.len(),
{
    lemma_space_newline();
    if texts.len() > 0 {
        let init = texts.drop_last();
        assert forall|i: int| 0 <= i < init.len() implies valid_utf8(#[trigger] init[i]) by {
            assert(init[i] == texts[i]);
        }
        lemma_tagged_lines_text(tag, init);
        assert(valid_utf8(texts[texts.len() - 1]));
        lemma_word_text(tag);
        lemma_cat(tag, seq![32u8]);
        lemma_cat(tag + seq![32u8], texts.last());
        lemma_cat(tag + seq![32u8] + texts.last(), seq![10u8]);
        lemma_cat(tagged_lines(tag, init), tagged_line(tag, texts.last()));
    }
}

proof fn lemma_property_line_text(p: PropertyModel, sized: bool)
    requires
        valid_utf8(p.name),
    ensures
        valid_utf8(property_line(p, sized)),
{
    lemma_space_newline();
    lemma_keywords();
    lemma_word_text(kw_property());
    lemma_word_text(kw_list());
    let a = kw_property() + seq![32u8];
    lemma_cat(kw_property(), seq![32u8]);
    match p.ty {
        PropertyType::Scalar(t) => {
            lemma_scalar_keyword_word(t);
            lemma_word_text(scalar_keyword(t));
            lemma_cat(a, scalar_keyword(t));
            lemma_cat(a + scalar_keyword(t), seq![32u8]);
            lemma_cat(a + scalar_keyword(t) + seq![32u8], p.name);
            lemma_cat(a + scalar_keyword(t) + seq![32u8] + p.name, seq![10u8]);
        },
        PropertyType::List { count_type, data_type } => {
            lemma_scalar_keyword_word(count_type);
            lemma_word_text(scalar_keyword(count_type));
            lemma_list_type_word(data_type, sized);
            lemma_word_text(list_type_name(data_type, sized));
            let b = a + kw_list() + seq![32u8];
            lemma_cat(a, kw_list());
            lemma_cat(a + kw_list(), seq![32u8]);
            let c = b + scalar_keyword(count_type) + seq![32u8];
            lemma_cat(b, scalar_keyword(count_type));
            lemma_cat(b + scalar_keyword(count_type), seq![32u8]);
            let e = c + list_type_name(data_type, sized) + seq![32u8];
            lemma_cat(c, list_type_name(data_type, sized));
            lemma_cat(c + list_type_name(data_type, sized), seq![32u8]);
            lemma_cat(e, p.name);
            lemma_cat(e + p.name, seq![10u8]);
        },
    }
}

proof fn lemma_element_blocks_text(es: Seq<ElementModel>, sized: bool)
    requires
        forall|i: int| 0 <= i < es.len() ==> valid_utf8(#[trigger] es[i].name),
        forall|i: int, j: int|
            0 <= i < es.len() && 0 <= j < es[i].properties.len() ==> valid_utf8(
                #[trigger] es[i].properties[j].name,
            ),
    ensures
        valid_utf8(element_blocks(es, sized)),
    decreases es.len(),
{
    lemma_space_newline();
    if es.len() > 0 {
        let init = es.drop_last();
        assert forall|i: int| 0 <= i < init.len() implies valid_utf8(#[trigger] init[i].name) by {
            assert(init[i] == es[i]);
        }
        assert forall|i: int, j: int|
            0 <= i < init.len() && 0 <= j < init[i].properties.len() implies valid_utf8(
            #[trigger] init[i].properties[j].name,
        ) by {
            assert(init[i] == es[i]);
        }
        lemma_element_blocks_text(init, sized);
        let e = es.last();
        assert(e == es[es.len() - 1]);
        assert(valid_utf8(e.name));
        lemma_keywords();
        lemma_word_text(kw_element());
        lemma_decimal_text(e.count);
        lemma_cat(kw_element(), seq![32u8]);
        lemma_cat(kw_element() + seq![32u8], e.name);
        lemma_cat(kw_element() + seq![32u8] + e.name, seq![32u8]);
        lemma_cat(kw_element() + seq![32u8] + e.name + seq![32u8], decimal(e.count));
        lemma_cat(kw_element() + seq![32u8] + e.name + seq![32u8] + decimal(e.count), seq![10u8]);
        lemma_property_lines_text(e.properties, sized);
        lemma_cat(element_line(e), property_lines(e.properties, sized));
        lemma_cat(element_blocks(init, sized), element_block(e, sized));
    }
}

proof fn lemma_property_lines_text(ps: Seq<PropertyModel>, sized: bool)
    requires
        forall|j: int| 0 <= j < ps.len() ==> valid_utf8(#[trigger] ps[j].name),
    ensures
        valid_utf8(property_lines(ps, sized)),
    decreases ps.len(),
{
    lemma_space_newline();
    if ps.len() > 0 {
        let init = ps.drop_last();
        assert forall|j: int| 0 <= j < init.len() implies valid_utf8(#[trigger] init[j].name) by {
            assert(init[j] == ps[j]);
        }
        lemma_property_lines_text(init, sized);
        assert(ps.last() == ps[ps.len() - 1]);
        lemma_property_line_text(ps.last(), sized);
        lemma_cat(property_lines(init, sized), property_line(ps.last(), sized));
    }
}

/// The text of a header whose texts are UTF-8 is UTF-8.
pub proof fn lemma_header_text_valid(h: HeaderModel, sized: bool)
    requires
        header_strings_valid(h),
    ensures
        valid_utf8(header_text_with(h, sized)),
{
    lemma_space_newline();
    lemma_keywords();
    lemma_format_names(h.format);
    lemma_word_text(kw_ply());
    lemma_word_text(kw_format());
    lemma_word_text(format_name(h.format));
    lemma_word_text(kw_comment());
    lemma_cat(kw_ply(), seq![10u8]);
    let f1 = kw_format() + seq![32u8];
    lemma_cat(kw_format(), seq![32u8]);
    lemma_cat(f1, format_name(h.format));
    lemma_cat(f1 + format_name(h.format), seq![32u8]);
    lemma_cat(f1 + format_name(h.format) + seq![32u8], h.version);
    lemma_cat(f1 + format_name(h.format) + seq![32u8] + h.version, seq![10u8]);
    lemma_tagged_lines_text(kw_comment(), h.comments);
    lemma_tagged_lines_text(kw_obj_info(), h.obj_info);
    lemma_element_blocks_text(h.elements, sized);
    let a = kw_ply() + seq![10u8];
    let b = a + format_line(h.format, h.version);
    lemma_cat(a, format_line(h.format, h.version));
    lemma_cat(b, tagged_lines(kw_comment(), h.comments));
    let c = b + tagged_lines(kw_comment(), h.comments);
    lemma_cat(c, tagged_lines(kw_obj_info(), h.obj_info));
    let e = c + tagged_lines(kw_obj_info(), h.obj_info);
    lemma_cat(e, element_blocks(h.elements, sized));
    lemma_cat(e + element_blocks(h.elements, sized), kw_end_header());
}

} // verus!
