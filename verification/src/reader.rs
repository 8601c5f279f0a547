//! Reading whole PLY data: the header, then each element's rows in turn.

use vstd::prelude::*;
use crate::error::{DeserializeCause, DeserializeError};
use crate::header::{element_models, parse_header, ElementDef, HeaderModel, PlyHeader, PropertyModel};
use crate::row::{decode_rows, property_types, read_rows};
use crate::value::{row_models, PropertyValue, ValueModel};

verus! {

/// What a reader holds: all the data, the position of the next row, the header, and
/// the index of the element that is read next.
pub struct ReaderModel {
    pub data: Seq<u8>,
    pub pos: nat,
    pub header: HeaderModel,
    pub element: nat,
}

pub open spec fn reader_wf(m: ReaderModel) -> bool {
    m.pos <= m.data.len()
}

/// The types of the properties of an element.
pub open spec fn element_types(e: crate::header::ElementModel) -> Seq<crate::header::PropertyType> {
    e.properties.map_values(|p: PropertyModel| p.ty)
}

/// Reads the rows of the elements from the `i`-th on, each exactly as many as the
/// header declares, one element after the other from `pos`.
pub open spec fn decode_elements(h: HeaderModel, s: Seq<u8>, pos: nat, i: nat) -> Result<
    Seq<Seq<Seq<ValueModel>>>,
    DeserializeCause,
>
    decreases h.elements.len() - i,
{
    if i >= h.elements.len() {
        Ok(seq![])
    } else {
        let e = h.elements[i as int];
        match decode_rows(h.format, element_types(e), s, pos, e.count) {
            Err(c) => Err(c),
            Ok((rows, p)) => match decode_elements(h, s, p, i + 1) {
                Err(c) => Err(c),
                Ok(rest) => Ok(seq![rows] + rest),
            },
        }
    }
}

/// What reading whole PLY data gives: the header, and the rows of every element.
pub open spec fn decode_file(s: Seq<u8>) -> Result<(HeaderModel, Seq<Seq<Seq<ValueModel>>>), DeserializeCause> {
    match parse_header(s) {
        Err(c) => Err(c),
        Ok((h, n)) => match decode_elements(h, s, n, 0) {
            Err(c) => Err(c),
            Ok(es) => Ok((h, es)),
        },
    }
}

/// The reader after reading the current element: past its rows where they read,
/// and in any case at the next element.
pub open spec fn read_next(m: ReaderModel) -> ReaderModel {
    let e = m.header.elements[m.element as int];
    match decode_rows(m.header.format, element_types(e), m.data, m.pos, e.count) {
        Ok((_, p)) => ReaderModel { pos: p, element: m.element + 1, ..m },
        Err(_) => ReaderModel { element: m.element + 1, ..m },
    }
}

/// The reader after `k` reads of elements.
pub open spec fn after_reads(m: ReaderModel, k: nat) -> ReaderModel
    decreases k,
{
    if k == 0 {
        m
    } else {
        read_next(after_reads(m, (k - 1) as nat))
    }
}

/// Each read moves on by one element and keeps the header and the data: after `k`
/// reads from a fresh reader, the current element is the `k`-th.
pub proof fn lemma_reads_move_on(m: ReaderModel, k: nat)
    ensures
        after_reads(m, k).element == m.element + k,
        after_reads(m, k).header == m.header,
        after_reads(m, k).data == m.data,
    decreases k,
{
    if k > 0 {
        lemma_reads_move_on(m, (k - 1) as nat);
    }
}

/// Reads PLY data one element at a time.
pub struct PlyReader {
    data: Vec<u8>,
    pos: usize,
    header: PlyHeader,
    current_element: usize,
}

impl View for PlyReader {
    type V = ReaderModel;

    closed spec fn view(&self) -> ReaderModel {
        ReaderModel {
            data: self.data@,
            pos: self.pos as nat,
            header: self.header@,
            element: self.current_element as nat,
        }
    }
}

/// The header and the rows of every element of PLY data.
pub struct PlyData {
    pub header: PlyHeader,
    pub elements: Vec<Vec<Vec<PropertyValue>>>,
}

pub open spec fn element_rows_models(v: Seq<Vec<Vec<PropertyValue>>>) -> Seq<Seq<Seq<ValueModel>>> {
    v.map_values(|e: Vec<Vec<PropertyValue>>| row_models(e@))
}

impl PlyReader {
    /// Reads the header at the start of `data`; the rows follow it.
    pub fn from_reader(data: Vec<u8>) -> (r: Result<PlyReader, DeserializeError>)
        ensures
            match parse_header(data@) {
                Ok((h, n)) => r matches Ok(rd) && rd@ == (ReaderModel {
                    data: data@,
                    pos: n,
                    header: h,
                    element: 0,
                }) && reader_wf(rd@),
                Err(c) => r is Err && r->Err_0 == DeserializeError(c),
            },
    {
        match PlyHeader::parse(data.as_slice()) {
            Ok((header, n)) => Ok(PlyReader { data, pos: n, header, current_element: 0 }),
            Err(e) => Err(e),
        }
    }

    /// The header.
    pub fn header(&self) -> (r: &PlyHeader)
        ensures
            r@ == self@.header,
    {
        &self.header
    }

    /// The element that is read next; `None` once all are read.
    pub fn current_element(&self) -> (r: Option<&ElementDef>)
        ensures
            if self@.element < self@.header.elements.len() {
                r matches Some(e) && e@ == self@.header.elements[self@.element as int]
            } else {
                r is None
            },
    {
        if self.current_element < self.header.elem_defs.len() {
            assert(element_models(self.header.elem_defs@)[self.current_element as int]
                == self.header.elem_defs@[self.current_element as int]@);
            Some(&self.header.elem_defs[self.current_element])
        } else {
            None
        }
    }

    /// Reads all rows of the current element, and moves to the next one.
    pub fn next_element(&mut self) -> (r: Result<Vec<Vec<PropertyValue>>, DeserializeError>)
        requires
            reader_wf(old(self)@),
            old(self)@.element < old(self)@.header.elements.len(),
        ensures
            reader_wf(final(self)@),
            final(self)@ == read_next(old(self)@),
            ({
                let m = old(self)@;
                let e = m.header.elements[m.element as int];
                match decode_rows(m.header.format, element_types(e), m.data, m.pos, e.count) {
                    Ok((rows, p)) => r matches Ok(v) && row_models(v@) == rows,
                    Err(c) => r is Err && r->Err_0 == DeserializeError(c),
                }
            }),
    {
        let ghost m = self@;
        let n_elems = self.header.elem_defs.len();
        assert(self.current_element < n_elems);
        let e = &self.header.elem_defs[self.current_element];
        assert(element_models(self.header.elem_defs@)[self.current_element as int] == e@);
        assert(element_types(e@) =~= property_types(e.properties@));
        let result = read_rows(self.header.format, &e.properties, self.data.as_slice(), self.pos, e.count);
        self.current_element = self.current_element + 1;
        match result {
            Ok((rows, p)) => {
                self.pos = p;
                Ok(rows)
            },
            Err(c) => Err(DeserializeError(c)),
        }
    }
}

/// Reads whole PLY data: the header, then the rows of every element in turn.
pub fn from_bytes(data: &[u8]) -> (r: Result<PlyData, DeserializeError>)
    ensures
        match decode_file(data@) {
            Ok((h, es)) => r matches Ok(d) && d.header@ == h && element_rows_models(d.elements@) == es,
            Err(c) => r is Err && r->Err_0 == DeserializeError(c),
        },
{
    let all = crate::text::copy_range(data, 0, data.len());
    assert(all@ =~= data@);
    let mut reader = match PlyReader::from_reader(all) {
        Ok(rd) => rd,
        Err(e) => {
            return Err(e);
        },
    };
    let ghost h = reader@.header;
    let ghost n = reader@.pos;
    let mut elements: Vec<Vec<Vec<PropertyValue>>> = Vec::new();
    assert(element_rows_models(elements@) =~= Seq::<Seq<Seq<ValueModel>>>::empty());
    while reader.current_element().is_some()
        invariant
            reader_wf(reader@),
            reader@.header == h,
            reader@.data == data@,
            reader@.element <= h.elements.len(),
            parse_header(data@) == Ok::<(HeaderModel, nat), DeserializeCause>((h, n)),
            elements@.len() == reader@.element,
            decode_elements(h, data@, n, 0) == match decode_elements(h, data@, reader@.pos, reader@.element) {
                Ok(rest) => Ok(element_rows_models(elements@) + rest),
                Err(c) => Err(c),
            },
        decreases h.elements.len() - reader@.element,
    {
        let ghost before = reader@;
        match reader.next_element() {
            Ok(rows) => {
                proof {
                    assert(element_rows_models(elements@.push(rows)) =~= element_rows_models(elements@).push(
                        row_models(rows@),
                    ));
                    let rest = decode_elements(h, data@, reader@.pos, reader@.element);
                    match rest {
                        Ok(xs) => {
                            assert(element_rows_models(elements@) + (seq![row_models(rows@)] + xs)
                                =~= element_rows_models(elements@).push(row_models(rows@)) + xs);
                        },
                        Err(_) => {},
                    }
                }
                elements.push(rows);
            },
            Err(e) => {
                return Err(e);
            },
        }
    }
    assert(element_rows_models(elements@) + Seq::<Seq<Seq<ValueModel>>>::empty() =~= element_rows_models(
        elements@,
    ));
    let header = reader.header;
    Ok(PlyData { header, elements })
}

} // verus!
