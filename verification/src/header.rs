//! The PLY header: its data model, reading it from bytes, and looking things up in it.

use vstd::prelude::*;
use vstd::string::StringSliceAdditionalSpecFns;
use vstd::utf8::{decode_utf8, encode_utf8, pop_first_scalar, valid_utf8};
use crate::error::{DeserializeCause, DeserializeError};
use crate::scalar::{
    format_name, format_named, scalar_keyword, scalar_sized_name, scalar_type_named, PlyFormat,
    ScalarType,
};
use crate::text::{
    append_bytes, copy_range, decimal, eq_bytes, push_decimal, join_space, join_words, line_len, line_length, parse_digits,
    split_words, split_ws, unsigned_value, views,
};
use crate::words::{
    kw_comment, kw_comment_bytes, kw_element, kw_element_bytes, kw_end_header,
    kw_end_header_bytes, kw_format, kw_format_bytes, kw_list, kw_list_bytes, kw_obj_info,
    kw_obj_info_bytes, kw_ply, kw_ply_bytes, kw_property, kw_property_bytes,
};

verus! {

broadcast use vstd::utf8::decode_utf8_encode_utf8, vstd::utf8::encode_utf8_decode_utf8;

/// The UTF-8 bytes of a string.
pub open spec fn str_bytes(s: String) -> Seq<u8> {
    encode_utf8(s@)
}

/// The type of a property: one scalar, or a list of scalars preceded by its count.
#[derive(Clone, Copy, Debug, PartialEq, Eq, Structural)]
pub enum PropertyType {
    Scalar(ScalarType),
    List { count_type: ScalarType, data_type: ScalarType },
}

/// A property of an element.
#[derive(Clone, Debug)]
pub struct PlyProperty {
    pub name: String,
    pub property_type: PropertyType,
}

/// An element of the header: its name, how many rows it has, and their properties.
#[derive(Clone, Debug)]
pub struct ElementDef {
    pub name: String,
    pub count: usize,
    pub properties: Vec<PlyProperty>,
}

/// The header of a PLY file.
#[derive(Clone, Debug)]
pub struct PlyHeader {
    pub format: PlyFormat,
    pub version: String,
    pub elem_defs: Vec<ElementDef>,
    pub comments: Vec<String>,
    pub obj_info: Vec<String>,
}

/// What a property is, with its name as bytes.
pub struct PropertyModel {
    pub name: Seq<u8>,
    pub ty: PropertyType,
}

/// What an element is, with its name as bytes.
pub struct ElementModel {
    pub name: Seq<u8>,
    pub count: nat,
    pub properties: Seq<PropertyModel>,
}

/// What a header is, with all its text as bytes.
pub struct HeaderModel {
    pub format: PlyFormat,
    pub version: Seq<u8>,
    pub elements: Seq<ElementModel>,
    pub comments: Seq<Seq<u8>>,
    pub obj_info: Seq<Seq<u8>>,
}

impl View for PlyProperty {
    type V = PropertyModel;

    open spec fn view(&self) -> PropertyModel {
        PropertyModel { name: str_bytes(self.name), ty: self.property_type }
    }
}

pub open spec fn property_models(v: Seq<PlyProperty>) -> Seq<PropertyModel> {
    v.map_values(|p: PlyProperty| p@)
}

impl View for ElementDef {
    type V = ElementModel;

    open spec fn view(&self) -> ElementModel {
        ElementModel {
            name: str_bytes(self.name),
            count: self.count as nat,
            properties: property_models(self.properties@),
        }
    }
}

pub open spec fn element_models(v: Seq<ElementDef>) -> Seq<ElementModel> {
    v.map_values(|e: ElementDef| e@)
}

pub open spec fn string_models(v: Seq<String>) -> Seq<Seq<u8>> {
    v.map_values(|s: String| str_bytes(s))
}

impl View for PlyHeader {
    type V = HeaderModel;

    open spec fn view(&self) -> HeaderModel {
        HeaderModel {
            format: self.format,
            version: str_bytes(self.version),
            elements: element_models(self.elem_defs@),
            comments: string_models(self.comments@),
            obj_info: string_models(self.obj_info@),
        }
    }
}

// ---------------------------------------------------------------------------
// Reading the header.
/// What has been read of the header after some of its lines.
pub struct ParseState {
    pub format: Option<PlyFormat>,
    pub version: Seq<u8>,
    pub elements: Seq<ElementModel>,
    pub current: Option<ElementModel>,
    pub comments: Seq<Seq<u8>>,
    pub obj_info: Seq<Seq<u8>>,
}

pub open spec fn initial_state() -> ParseState {
    ParseState {
        format: None,
        version: seq![],
        elements: seq![],
        current: None,
        comments: seq![],
        obj_info: seq![],
    }
}

pub open spec fn all_valid_utf8(ws: Seq<Seq<u8>>) -> bool {
    forall|i: int| 0 <= i < ws.len() ==> valid_utf8(#[trigger] ws[i])
}

/// The finished elements, with the one still being read appended.
pub open spec fn closed_elements(st: ParseState) -> Seq<ElementModel> {
    match st.current {
        Some(e) => st.elements.push(e),
        None => st.elements,
    }
}

/// `st` with a property appended to the element being read.
pub open spec fn with_property(st: ParseState, e: ElementModel, p: PropertyModel) -> ParseState {
    ParseState {
        current: Some(ElementModel { properties: e.properties.push(p), ..e }),
        ..st
    }
}

/// Reads one header line (other than the first and `end_header`).
#[verifier::opaque]
pub open spec fn header_step(st: ParseState, line: Seq<u8>) -> Result<ParseState, DeserializeCause> {
    let w = split_ws(line);
    if !all_valid_utf8(w) {
        Err(DeserializeCause::InvalidUtf8)
    } else if w.len() == 0 {
        Ok(st)
    } else if w[0] == kw_format() {
        if w.len() < 3 {
            Err(DeserializeCause::InvalidFormatLine)
        } else {
            match format_named(w[1]) {
                Some(f) => Ok(ParseState { format: Some(f), version: w[2], ..st }),
                None => Err(DeserializeCause::UnknownFormat),
            }
        }
    } else if w[0] == kw_comment() {
        Ok(ParseState { comments: st.comments.push(join_space(w.skip(1))), ..st })
    } else if w[0] == kw_obj_info() {
        Ok(ParseState { obj_info: st.obj_info.push(join_space(w.skip(1))), ..st })
    } else if w[0] == kw_element() {
        if w.len() < 3 {
            Err(DeserializeCause::InvalidElementLine)
        } else {
            match unsigned_value(w[2]) {
                Some(n) if n <= usize::MAX => Ok(
                    ParseState {
                        elements: closed_elements(st),
                        current: Some(ElementModel { name: w[1], count: n, properties: seq![] }),
                        ..st
                    },
                ),
                _ => Err(DeserializeCause::InvalidElementCount),
            }
        }
    } else if w[0] == kw_property() {
        match st.current {
            None => Err(DeserializeCause::PropertyWithoutElement),
            Some(e) => if w.len() < 3 {
                Err(DeserializeCause::InvalidPropertyLine)
            } else if w[1] == kw_list() {
                if w.len() < 5 {
                    Err(DeserializeCause::InvalidListPropertyLine)
                } else {
                    match (scalar_type_named(w[2]), scalar_type_named(w[3])) {
                        (Some(c), Some(d)) => Ok(
                            with_property(
                                st,
                                e,
                                PropertyModel {
                                    name: w[4],
                                    ty: PropertyType::List { count_type: c, data_type: d },
                                },
                            ),
                        ),
                        _ => Err(DeserializeCause::UnknownScalarType),
                    }
                }
            } else {
                match scalar_type_named(w[1]) {
                    Some(t) => Ok(
                        with_property(
                            st,
                            e,
                            PropertyModel { name: w[2], ty: PropertyType::Scalar(t) },
                        ),
                    ),
                    None => Err(DeserializeCause::UnknownScalarType),
                }
            }
        }
    } else {
        Ok(st)
    }
}

/// The header once all lines are read, `consumed` bytes into the input.
pub open spec fn header_finish(st: ParseState, consumed: nat) -> Result<(HeaderModel, nat), DeserializeCause> {
    match st.format {
        None => Err(DeserializeCause::MissingFormat),
        Some(f) => Ok(
            (
                HeaderModel {
                    format: f,
                    version: st.version,
                    elements: closed_elements(st),
                    comments: st.comments,
                    obj_info: st.obj_info,
                },
                consumed,
            ),
        ),
    }
}

/// Reads header lines from `s[pos..]` until the line `end_header\n`.
pub open spec fn header_lines(s: Seq<u8>, pos: nat, st: ParseState) -> Result<(HeaderModel, nat), DeserializeCause>
    decreases s.len() - pos,
{
    if pos >= s.len() {
        Err(DeserializeCause::UnexpectedEof)
    } else {
        let n = line_len(s.skip(pos as int));
        proof {
            crate::text::lemma_line_len_bound(s.skip(pos as int));
        }
        let line = s.subrange(pos as int, (pos + n) as int);
        if line == kw_end_header() {
            header_finish(st, pos + n)
        } else {
            match header_step(st, line) {
                Err(c) => Err(c),
                Ok(st2) => header_lines(s, pos + n, st2),
            }
        }
    }
}

/// What reading a header from the start of `s` gives: the header and the number of
/// bytes it takes (through `end_header\n`), or why it cannot be read.
pub open spec fn parse_header(s: Seq<u8>) -> Result<(HeaderModel, nat), DeserializeCause> {
    let n = line_len(s);
    if split_ws(s.take(n as int)) != seq![kw_ply()] {
        Err(DeserializeCause::NotPly)
    } else {
        header_lines(s, n, initial_state())
    }
}


/// A byte sequence of ASCII bytes only is UTF-8.
pub proof fn lemma_ascii_valid_utf8(s: Seq<u8>)
    requires
        forall|i: int| 0 <= i < s.len() ==> #[trigger] s[i] < 128,
    ensures
        valid_utf8(s),
    decreases s.len(),
{
    if s.len() > 0 {
        let b = s[0];
        assert(b & 0x7f == b) by (bit_vector)
            requires
                b < 128,
        ;
        assert(pop_first_scalar(s) =~= s.drop_first());
        lemma_ascii_valid_utf8(s.drop_first());
    }
}

/// Words that are UTF-8 joined by spaces are UTF-8.
pub proof fn lemma_join_valid_utf8(ws: Seq<Seq<u8>>)
    requires
        all_valid_utf8(ws),
    ensures
        valid_utf8(join_space(ws)),
    decreases ws.len(),
{
    if ws.len() == 0 {
    } else if ws.len() == 1 {
        assert(valid_utf8(ws[0]));
    } else {
        lemma_join_valid_utf8(ws.drop_last());
        let sp = seq![32u8];
        lemma_ascii_valid_utf8(sp);
        vstd::utf8::valid_utf8_concat(join_space(ws.drop_last()), sp);
        assert(valid_utf8(ws.last()));
        vstd::utf8::valid_utf8_concat(join_space(ws.drop_last()) + sp, ws.last());
    }
}

/// `std::str::from_utf8` with its error dropped: `Some` exactly when the bytes are
/// UTF-8, and then the text that they encode.
#[verifier::external_body]
pub(crate) fn utf8_text(b: &[u8]) -> (r: Option<&str>)
    ensures
        r is Some <==> valid_utf8(b@),
        r matches Some(t) ==> t@ == decode_utf8(b@),
{
    std::str::from_utf8(b).ok()
}

/// The string whose UTF-8 bytes are `b`.
pub(crate) fn text_of(b: &[u8]) -> (r: String)
    requires
        valid_utf8(b@),
    ensures
        str_bytes(r) == b@,
{
    match utf8_text(b) {
        Some(t) => t.to_owned(),
        None => String::new(),
    }
}

/// Whether every word is UTF-8.
fn words_are_utf8(ws: &Vec<Vec<u8>>) -> (r: bool)
    ensures
        r == all_valid_utf8(views(ws@)),
{
    let mut i: usize = 0;
    while i < ws.len()
        invariant
            i <= ws@.len(),
            forall|j: int| 0 <= j < i ==> valid_utf8(#[trigger] views(ws@)[j]),
        decreases ws@.len() - i,
    {
        if utf8_text(ws[i].as_slice()).is_none() {
            assert(views(ws@)[i as int] == ws@[i as int]@);
            return false;
        }
        assert(views(ws@)[i as int] == ws@[i as int]@);
        i = i + 1;
    }
    true
}

/// Reads a `usize` written as `usize::from_str` accepts it.
pub fn parse_usize(t: &[u8]) -> (r: Option<usize>)
    ensures
        r == match unsigned_value(t@) {
            Some(n) => if n <= usize::MAX {
                Some(n as usize)
            } else {
                None::<usize>
            },
            None => None::<usize>,
        },
{
    let start: usize = if t.len() > 0 && t[0] == 43u8 {
        1
    } else {
        0
    };
    assert(t@.skip(start as int) =~= (if t@.len() > 0 && t@[0] == 43 {
        t@.drop_first()
    } else {
        t@
    }));
    match parse_digits(t, start, usize::MAX as u64) {
        Some(v) => Some(v as usize),
        None => None,
    }
}

/// The header read so far, as the parser holds it.
struct Progress {
    format: Option<PlyFormat>,
    version: String,
    elements: Vec<ElementDef>,
    current: Option<ElementDef>,
    comments: Vec<String>,
    obj_info: Vec<String>,
}

impl Progress {
    spec fn model(&self) -> ParseState {
        ParseState {
            format: self.format,
            version: str_bytes(self.version),
            elements: element_models(self.elements@),
            current: match self.current {
                Some(e) => Some(e@),
                None => None,
            },
            comments: string_models(self.comments@),
            obj_info: string_models(self.obj_info@),
        }
    }

    fn new() -> (r: Progress)
        ensures
            r.model() == initial_state(),
    {
        let r = Progress {
            format: None,
            version: String::new(),
            elements: Vec::new(),
            current: None,
            comments: Vec::new(),
            obj_info: Vec::new(),
        };
        assert(str_bytes(r.version) =~= Seq::<u8>::empty());
        assert(element_models(r.elements@) =~= Seq::<ElementModel>::empty());
        assert(string_models(r.comments@) =~= Seq::<Seq<u8>>::empty());
        assert(string_models(r.obj_info@) =~= Seq::<Seq<u8>>::empty());
        r
    }

    /// Moves the element being read to the finished ones.
    fn close_current(&mut self)
        ensures
            final(self).model() == (ParseState {
                elements: closed_elements(old(self).model()),
                current: None,
                ..old(self).model()
            }),
    {
        match self.current.take() {
            Some(e) => {
                let ghost before = self.elements@;
                self.elements.push(e);
                assert(element_models(self.elements@) =~= element_models(before).push(e@));
            },
            None => {},
        }
    }

    /// Reads one header line.
    fn step(&mut self, line: &[u8]) -> (r: Result<(), DeserializeCause>)
        ensures
            match header_step(old(self).model(), line@) {
                Ok(st) => r is Ok && final(self).model() == st,
                Err(c) => r == Err::<(), DeserializeCause>(c),
            },
    {
        reveal(header_step);
        let w = split_words(line);
        let ghost ws = split_ws(line@);
        assert(views(w@) == ws);
        if !words_are_utf8(&w) {
            return Err(DeserializeCause::InvalidUtf8);
        }
        if w.len() == 0 {
            return Ok(());
        }
        assert(ws[0] == w@[0]@);
        let first = w[0].as_slice();
        if eq_bytes(first, kw_format_bytes().as_slice()) {
            if w.len() < 3 {
                return Err(DeserializeCause::InvalidFormatLine);
            }
            assert(ws[1] == w@[1]@ && ws[2] == w@[2]@);
            match PlyFormat::from_name(w[1].as_slice()) {
                Some(f) => {
                    assert(valid_utf8(ws[2]));
                    self.format = Some(f);
                    self.version = text_of(w[2].as_slice());
                    Ok(())
                },
                None => Err(DeserializeCause::UnknownFormat),
            }
        } else if eq_bytes(first, kw_comment_bytes().as_slice()) {
            let joined = join_words(&w, 1);
            proof {
                lemma_join_valid_utf8(ws.skip(1));
            }
            let c = text_of(joined.as_slice());
            let ghost before = self.comments@;
            self.comments.push(c);
            assert(string_models(self.comments@) =~= string_models(before).push(str_bytes(c)));
            Ok(())
        } else if eq_bytes(first, kw_obj_info_bytes().as_slice()) {
            let joined = join_words(&w, 1);
            proof {
                lemma_join_valid_utf8(ws.skip(1));
            }
            let c = text_of(joined.as_slice());
            let ghost before = self.obj_info@;
            self.obj_info.push(c);
            assert(string_models(self.obj_info@) =~= string_models(before).push(str_bytes(c)));
            Ok(())
        } else if eq_bytes(first, kw_element_bytes().as_slice()) {
            if w.len() < 3 {
                return Err(DeserializeCause::InvalidElementLine);
            }
            assert(ws[1] == w@[1]@ && ws[2] == w@[2]@);
            match parse_usize(w[2].as_slice()) {
                Some(count) => {
                    assert(valid_utf8(ws[1]));
                    let name = text_of(w[1].as_slice());
                    self.close_current();
                    let e = ElementDef { name, count, properties: Vec::new() };
                    assert(property_models(e.properties@) =~= Seq::<PropertyModel>::empty());
                    self.current = Some(e);
                    Ok(())
                },
                None => Err(DeserializeCause::InvalidElementCount),
            }
        } else if eq_bytes(first, kw_property_bytes().as_slice()) {
            if self.current.is_none() {
                return Err(DeserializeCause::PropertyWithoutElement);
            }
            if w.len() < 3 {
                return Err(DeserializeCause::InvalidPropertyLine);
            }
            assert(ws[1] == w@[1]@ && ws[2] == w@[2]@);
            let (name_at, ty) = if eq_bytes(w[1].as_slice(), kw_list_bytes().as_slice()) {
                if w.len() < 5 {
                    return Err(DeserializeCause::InvalidListPropertyLine);
                }
                assert(ws[3] == w@[3]@ && ws[4] == w@[4]@);
                let c = match ScalarType::from_name(w[2].as_slice()) {
                    Some(c) => c,
                    None => {
                        return Err(DeserializeCause::UnknownScalarType);
                    },
                };
                let d = match ScalarType::from_name(w[3].as_slice()) {
                    Some(d) => d,
                    None => {
                        return Err(DeserializeCause::UnknownScalarType);
                    },
                };
                (4usize, PropertyType::List { count_type: c, data_type: d })
            } else {
                let t = match ScalarType::from_name(w[1].as_slice()) {
                    Some(t) => t,
                    None => {
                        return Err(DeserializeCause::UnknownScalarType);
                    },
                };
                (2usize, PropertyType::Scalar(t))
            };
            assert(valid_utf8(ws[name_at as int]));
            let name = text_of(w[name_at].as_slice());
            let p = PlyProperty { name, property_type: ty };
            let mut e = self.current.take().unwrap();
            let ghost before = e.properties@;
            e.properties.push(p);
            assert(property_models(e.properties@) =~= property_models(before).push(p@));
            self.current = Some(e);
            Ok(())
        } else {
            Ok(())
        }
    }

    /// The header once `end_header` is reached.
    fn finish(self) -> (r: Result<PlyHeader, DeserializeCause>)
        ensures
            match header_finish(self.model(), 0) {
                Ok((h, _)) => r matches Ok(hh) && hh@ == h,
                Err(c) => r == Err::<PlyHeader, DeserializeCause>(c),
            },
    {
        let mut me = self;
        me.close_current();
        match me.format {
            None => Err(DeserializeCause::MissingFormat),
            Some(f) => Ok(
                PlyHeader {
                    format: f,
                    version: me.version,
                    elem_defs: me.elements,
                    comments: me.comments,
                    obj_info: me.obj_info,
                },
            ),
        }
    }
}

impl PlyHeader {
    /// Reads a header from the start of `data`: the header and the number of bytes
    /// it takes, through the line `end_header\n`.
    pub fn parse(data: &[u8]) -> (r: Result<(PlyHeader, usize), DeserializeError>)
        ensures
            match parse_header(data@) {
                Ok((h, n)) => r matches Ok((hh, m)) && hh@ == h && m == n,
                Err(c) => r == Err::<(PlyHeader, usize), DeserializeError>(DeserializeError(c)),
            },
            r matches Ok((_, m)) ==> m <= data@.len(),
    {
        let n0 = line_length(data, 0);
        assert(data@.skip(0) =~= data@);
        let first = copy_range(data, 0, n0);
        let fw = split_words(first.as_slice());
        assert(first@ =~= data@.take(n0 as int));
        let is_ply = fw.len() == 1 && eq_bytes(fw[0].as_slice(), kw_ply_bytes().as_slice());
        proof {
            if is_ply {
                assert(views(fw@) =~= seq![kw_ply()]);
            } else if fw@.len() == 1 {
                assert(views(fw@)[0] == fw@[0]@);
                assert(fw@[0]@ != kw_ply());
                assert(seq![kw_ply()][0] == kw_ply());
                assert(views(fw@) != seq![kw_ply()]);
            } else {
                assert(views(fw@).len() != seq![kw_ply()].len());
            }
            assert(split_ws(data@.take(n0 as int)) == views(fw@));
        }
        if !is_ply {
            return Err(DeserializeError(DeserializeCause::NotPly));
        }
        let mut st = Progress::new();
        let mut pos = n0;
        loop
            invariant
                pos <= data@.len(),
                parse_header(data@) == header_lines(data@, pos as nat, st.model()),
            decreases data@.len() - pos,
        {
            if pos >= data.len() {
                return Err(DeserializeError(DeserializeCause::UnexpectedEof));
            }
            let n = line_length(data, pos);
            proof {
                crate::text::lemma_line_len_bound(data@.skip(pos as int));
            }
            let line = copy_range(data, pos, pos + n);
            if eq_bytes(line.as_slice(), kw_end_header_bytes().as_slice()) {
                return match st.finish() {
                    Ok(h) => Ok((h, pos + n)),
                    Err(c) => Err(DeserializeError(c)),
                };
            }
            match st.step(line.as_slice()) {
                Ok(()) => {},
                Err(c) => {
                    return Err(DeserializeError(c));
                },
            }
            pos = pos + n;
        }
    }
}


/// `pat` occurs in `s` starting at `i`.
pub open spec fn occurs_at(s: Seq<u8>, pat: Seq<u8>, i: int) -> bool {
    0 <= i && i + pat.len() <= s.len() && s.subrange(i, i + pat.len()) == pat
}

/// Finds the position of the last byte of the first `end_header\n` in `buffer`.
pub fn find_header_end(buffer: &[u8]) -> (r: Option<usize>)
    ensures
        match r {
            Some(e) => e >= 10 && occurs_at(buffer@, kw_end_header(), e - 10) && forall|j: int|
                0 <= j < e - 10 ==> !occurs_at(buffer@, kw_end_header(), j),
            None => forall|j: int| !occurs_at(buffer@, kw_end_header(), j),
        },
{
    let pat = kw_end_header_bytes();
    if buffer.len() < pat.len() {
        return None;
    }
    let mut i: usize = 0;
    while i <= buffer.len() - pat.len()
        invariant
            pat@ == kw_end_header(),
            pat@.len() <= buffer@.len(),
            forall|j: int| 0 <= j < i ==> !occurs_at(buffer@, kw_end_header(), j),
        decreases buffer@.len() - i,
    {
        let window = copy_range(buffer, i, i + pat.len());
        if eq_bytes(window.as_slice(), pat.as_slice()) {
            return Some(i + pat.len() - 1);
        }
        i = i + 1;
    }
    None
}

impl ElementDef {
    /// The first property named `name`.
    pub fn get_property(&self, name: &str) -> (r: Option<&PlyProperty>)
        ensures
            match r {
                Some(p) => exists|i: int|
                    0 <= i < self.properties@.len() && self.properties@[i] == *p && p.name@ == name@
                        && forall|j: int| 0 <= j < i ==> #[trigger] self.properties@[j].name@ != name@,
                None => forall|j: int|
                    0 <= j < self.properties@.len() ==> #[trigger] self.properties@[j].name@ != name@,
            },
    {
        let target = name.to_owned();
        let mut i: usize = 0;
        while i < self.properties.len()
            invariant
                i <= self.properties@.len(),
                target@ == name@,
                forall|j: int| 0 <= j < i ==> #[trigger] self.properties@[j].name@ != name@,
            decreases self.properties@.len() - i,
        {
            if self.properties[i].name == target {
                return Some(&self.properties[i]);
            }
            i = i + 1;
        }
        None
    }

    /// Whether some property is named `name`.
    pub fn has_property(&self, name: &str) -> (r: bool)
        ensures
            r == exists|j: int| 0 <= j < self.properties@.len() && #[trigger] self.properties@[j].name@ == name@,
    {
        self.get_property(name).is_some()
    }

    /// A copy of the element with the same contents.
    pub fn copy(&self) -> (r: ElementDef)
        ensures
            r@ == self@,
            r.name == self.name,
            r.count == self.count,
            r.properties@ == self.properties@,
    {
        let mut props: Vec<PlyProperty> = Vec::new();
        let mut i: usize = 0;
        while i < self.properties.len()
            invariant
                i <= self.properties@.len(),
                props@ == self.properties@.take(i as int),
            decreases self.properties@.len() - i,
        {
            let p = &self.properties[i];
            props.push(PlyProperty { name: p.name.clone(), property_type: p.property_type });
            i = i + 1;
            assert(props@ =~= self.properties@.take(i as int));
        }
        assert(props@ =~= self.properties@);
        ElementDef { name: self.name.clone(), count: self.count, properties: props }
    }
}

impl PlyHeader {
    /// A copy of the first element named `name`.
    pub fn get_element(&self, name: &str) -> (r: Option<ElementDef>)
        ensures
            match r {
                Some(e) => exists|i: int|
                    0 <= i < self.elem_defs@.len() && e@ == self.elem_defs@[i]@ && e.name@ == name@
                        && self.elem_defs@[i].name@ == name@
                        && forall|j: int| 0 <= j < i ==> #[trigger] self.elem_defs@[j].name@ != name@,
                None => forall|j: int|
                    0 <= j < self.elem_defs@.len() ==> #[trigger] self.elem_defs@[j].name@ != name@,
            },
    {
        let target = name.to_owned();
        let mut i: usize = 0;
        while i < self.elem_defs.len()
            invariant
                i <= self.elem_defs@.len(),
                target@ == name@,
                forall|j: int| 0 <= j < i ==> #[trigger] self.elem_defs@[j].name@ != name@,
            decreases self.elem_defs@.len() - i,
        {
            if self.elem_defs[i].name == target {
                return Some(self.elem_defs[i].copy());
            }
            i = i + 1;
        }
        None
    }

    /// Whether some element is named `name`.
    pub fn has_element(&self, name: &str) -> (r: bool)
        ensures
            r == exists|j: int| 0 <= j < self.elem_defs@.len() && #[trigger] self.elem_defs@[j].name@ == name@,
    {
        self.get_element(name).is_some()
    }
}


// ---------------------------------------------------------------------------
// Writing the header.
/// `format <name> <version>\n`
pub open spec fn format_line(f: PlyFormat, version: Seq<u8>) -> Seq<u8> {
    kw_format() + seq![32u8] + format_name(f) + seq![32u8] + version + seq![10u8]
}

/// `<tag> <text>\n`, as comments and object information are written.
pub open spec fn tagged_line(tag: Seq<u8>, text: Seq<u8>) -> Seq<u8> {
    tag + seq![32u8] + text + seq![10u8]
}

pub open spec fn tagged_lines(tag: Seq<u8>, texts: Seq<Seq<u8>>) -> Seq<u8>
    decreases texts.len(),
{
    if texts.len() == 0 {
        seq![]
    } else {
        tagged_lines(tag, texts.drop_last()) + tagged_line(tag, texts.last())
    }
}

/// `element <name> <count>\n`
pub open spec fn element_line(e: ElementModel) -> Seq<u8> {
    kw_element() + seq![32u8] + e.name + seq![32u8] + decimal(e.count) + seq![10u8]
}

/// The name that the element type of a list is written with: its sized name
/// (`int32`) where `sized`, else its traditional one (`int`).
pub open spec fn list_type_name(t: ScalarType, sized: bool) -> Seq<u8> {
    if sized {
        scalar_sized_name(t)
    } else {
        scalar_keyword(t)
    }
}

/// `property <type> <name>\n` or `property list <count type> <type> <name>\n`,
/// with the traditional type names, but for the element type of a list where
/// `sized`.
pub open spec fn property_line(p: PropertyModel, sized: bool) -> Seq<u8> {
    match p.ty {
        PropertyType::Scalar(t) => kw_property() + seq![32u8] + scalar_keyword(t) + seq![32u8] + p.name
            + seq![10u8],
        PropertyType::List { count_type, data_type } => kw_property() + seq![32u8] + kw_list() + seq![
            32u8,
        ] + scalar_keyword(count_type) + seq![32u8] + list_type_name(data_type, sized) + seq![32u8]
            + p.name + seq![10u8],
    }
}

pub open spec fn property_lines(ps: Seq<PropertyModel>, sized: bool) -> Seq<u8>
    decreases ps.len(),
{
    if ps.len() == 0 {
        seq![]
    } else {
        property_lines(ps.drop_last(), sized) + property_line(ps.last(), sized)
    }
}

pub open spec fn element_block(e: ElementModel, sized: bool) -> Seq<u8> {
    element_line(e) + property_lines(e.properties, sized)
}

pub open spec fn element_blocks(es: Seq<ElementModel>, sized: bool) -> Seq<u8>
    decreases es.len(),
{
    if es.len() == 0 {
        seq![]
    } else {
        element_blocks(es.drop_last(), sized) + element_block(es.last(), sized)
    }
}

/// The text of a header: `ply`, the format line, the comments, the object
/// information, each element with its properties, and `end_header`; the element
/// types of lists by their sized names where `sized`.
pub open spec fn header_text_with(h: HeaderModel, sized: bool) -> Seq<u8> {
    kw_ply() + seq![10u8] + format_line(h.format, h.version) + tagged_lines(kw_comment(), h.comments)
        + tagged_lines(kw_obj_info(), h.obj_info) + element_blocks(h.elements, sized) + kw_end_header()
}

/// The text of a header, with the traditional type names throughout.
pub open spec fn header_text(h: HeaderModel) -> Seq<u8> {
    header_text_with(h, false)
}

/// The bytes of a string.
pub(crate) fn string_bytes(s: &String) -> (r: &[u8])
    ensures
        r@ == str_bytes(*s),
{
    s.as_str().as_bytes()
}

fn write_tagged_lines(out: &mut Vec<u8>, tag: &Vec<u8>, texts: &Vec<String>)
    ensures
        final(out)@ == old(out)@ + tagged_lines(tag@, string_models(texts@)),
{
    let mut i: usize = 0;
    assert(string_models(texts@).take(0) =~= Seq::<Seq<u8>>::empty());
    while i < texts.len()
        invariant
            i <= texts@.len(),
            out@ == old(out)@ + tagged_lines(tag@, string_models(texts@).take(i as int)),
        decreases texts@.len() - i,
    {
        let ghost before = out@;
        append_bytes(out, tag.as_slice());
        out.push(32u8);
        append_bytes(out, string_bytes(&texts[i]));
        out.push(10u8);
        i = i + 1;
        proof {
            let ms = string_models(texts@).take(i as int);
            assert(ms.drop_last() =~= string_models(texts@).take(i - 1));
            assert(ms.last() == str_bytes(texts@[i - 1]));
            assert(out@ =~= before + tagged_line(tag@, ms.last()));
        }
    }
    assert(string_models(texts@).take(texts@.len() as int) =~= string_models(texts@));
}

fn write_property_line(out: &mut Vec<u8>, p: &PlyProperty, sized: bool)
    ensures
        final(out)@ == old(out)@ + property_line(p@, sized),
{
    append_bytes(out, kw_property_bytes().as_slice());
    out.push(32u8);
    match p.property_type {
        PropertyType::Scalar(t) => {
            append_bytes(out, t.keyword().as_slice());
        },
        PropertyType::List { count_type, data_type } => {
            append_bytes(out, kw_list_bytes().as_slice());
            out.push(32u8);
            append_bytes(out, count_type.keyword().as_slice());
            out.push(32u8);
            if sized {
                append_bytes(out, data_type.sized_name().as_slice());
            } else {
                append_bytes(out, data_type.keyword().as_slice());
            }
        },
    }
    out.push(32u8);
    append_bytes(out, string_bytes(&p.name));
    out.push(10u8);
    assert(final(out)@ =~= old(out)@ + property_line(p@, sized));
}

fn write_element_block(out: &mut Vec<u8>, e: &ElementDef, sized: bool)
    ensures
        final(out)@ == old(out)@ + element_block(e@, sized),
{
    append_bytes(out, kw_element_bytes().as_slice());
    out.push(32u8);
    append_bytes(out, string_bytes(&e.name));
    out.push(32u8);
    push_decimal(out, e.count as u64);
    out.push(10u8);
    assert(out@ =~= old(out)@ + element_line(e@));
    let ghost start = out@;
    let mut i: usize = 0;
    assert(property_models(e.properties@).take(0) =~= Seq::<PropertyModel>::empty());
    while i < e.properties.len()
        invariant
            i <= e.properties@.len(),
            out@ == start + property_lines(property_models(e.properties@).take(i as int), sized),
        decreases e.properties@.len() - i,
    {
        write_property_line(out, &e.properties[i], sized);
        i = i + 1;
        proof {
            let ms = property_models(e.properties@).take(i as int);
            assert(ms.drop_last() =~= property_models(e.properties@).take(i - 1));
        }
    }
    assert(property_models(e.properties@).take(e.properties@.len() as int) =~= property_models(
        e.properties@,
    ));
}

impl PlyHeader {
    /// Appends the text of the header to `out`.
    pub fn write_to(&self, out: &mut Vec<u8>)
        ensures
            final(out)@ == old(out)@ + header_text(self@),
    {
        self.write_text(out, false);
    }

    /// Appends the text of the header to `out`, the element types of lists by
    /// their sized names where `sized`.
    pub(crate) fn write_text(&self, out: &mut Vec<u8>, sized: bool)
        ensures
            final(out)@ == old(out)@ + header_text_with(self@, sized),
    {
        append_bytes(out, kw_ply_bytes().as_slice());
        out.push(10u8);
        append_bytes(out, kw_format_bytes().as_slice());
        out.push(32u8);
        append_bytes(out, self.format.name().as_slice());
        out.push(32u8);
        append_bytes(out, string_bytes(&self.version));
        out.push(10u8);
        let ghost a = out@;
        write_tagged_lines(out, &kw_comment_bytes(), &self.comments);
        let ghost b = out@;
        write_tagged_lines(out, &kw_obj_info_bytes(), &self.obj_info);
        let ghost c = out@;
        let mut i: usize = 0;
        assert(element_models(self.elem_defs@).take(0) =~= Seq::<ElementModel>::empty());
        while i < self.elem_defs.len()
            invariant
                i <= self.elem_defs@.len(),
                out@ == c + element_blocks(element_models(self.elem_defs@).take(i as int), sized),
            decreases self.elem_defs@.len() - i,
        {
            write_element_block(out, &self.elem_defs[i], sized);
            i = i + 1;
            proof {
                let ms = element_models(self.elem_defs@).take(i as int);
                assert(ms.drop_last() =~= element_models(self.elem_defs@).take(i - 1));
            }
        }
        assert(element_models(self.elem_defs@).take(self.elem_defs@.len() as int) =~= element_models(
            self.elem_defs@,
        ));
        append_bytes(out, kw_end_header_bytes().as_slice());
        assert(final(out)@ =~= old(out)@ + header_text_with(self@, sized));
    }

    /// The text of the header.
    pub fn to_bytes(&self) -> (r: Vec<u8>)
        ensures
            r@ == header_text(self@),
    {
        let mut out: Vec<u8> = Vec::new();
        self.write_to(&mut out);
        assert(out@ =~= header_text(self@));
        out
    }
}

} // verus!
