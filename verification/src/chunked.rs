//! Reading PLY data piece by piece, as it arrives: the header once it is whole,
//! then the rows of each element as far as the data reaches.

use vstd::prelude::*;
use crate::error::{DeserializeCause, DeserializeError};
use crate::header::{find_header_end, occurs_at, parse_header, ElementDef, ElementModel, HeaderModel, PlyHeader};
use crate::row::{decode_available, property_types, read_available};
use crate::text::copy_range;
use crate::words::kw_end_header;
use crate::value::{row_models, PropertyValue, ValueModel};

verus! {

/// What a chunked reader holds: the header once read, the element being read and
/// how many of its rows have been read, and the data not yet read.
pub struct ChunkedModel {
    pub header: Option<HeaderModel>,
    pub element: nat,
    pub rows: nat,
    pub buffer: Seq<u8>,
}

/// The states that the reader can be in: before the header, nothing has been read;
/// after it, the element is one of the header's or just past the last, and no more
/// of its rows have been read than it has.
pub open spec fn chunked_wf(m: ChunkedModel) -> bool {
    match m.header {
        None => m.element == 0 && m.rows == 0,
        Some(h) => m.element <= h.elements.len() && (m.element < h.elements.len() ==> m.rows
            <= h.elements[m.element as int].count),
    }
}

/// The state once the header is read, if the data holds all of it: the header's
/// bytes leave the buffer. A header that cannot be read (yet) leaves the state as it is.
pub open spec fn load_header(m: ChunkedModel) -> ChunkedModel {
    match m.header {
        Some(_) => m,
        None => match parse_header(m.buffer) {
            Ok((h, n)) => ChunkedModel { header: Some(h), buffer: m.buffer.skip(n as int), ..m },
            Err(_) => m,
        },
    }
}

/// The element being read, in a state whose header is read.
pub open spec fn current_def(m: ChunkedModel) -> ElementModel {
    m.header->Some_0.elements[m.element as int]
}

/// The state after `k` more rows of the current element were read from the first
/// `consumed` bytes of the buffer: once all its rows are read, the next element begins.
pub open spec fn advanced(m: ChunkedModel, k: nat, consumed: nat) -> ChunkedModel {
    let rows = m.rows + k;
    if rows >= current_def(m).count {
        ChunkedModel { element: m.element + 1, rows: 0, buffer: m.buffer.skip(consumed as int), ..m }
    } else {
        ChunkedModel { rows: rows, buffer: m.buffer.skip(consumed as int), ..m }
    }
}

/// The rows that the buffer holds whole, of those that the current element still has,
/// and the number of bytes that they take.
pub open spec fn pending_rows(m: ChunkedModel) -> Result<(Seq<Seq<ValueModel>>, nat), DeserializeCause> {
    let h = m.header->Some_0;
    let e = current_def(m);
    decode_available(
        h.format,
        e.properties.map_values(|p: crate::header::PropertyModel| p.ty),
        m.buffer,
        0,
        (e.count - m.rows) as nat,
    )
}

/// One step of chunked reading: the header is read if it can be; then, without a
/// header, there are no rows; past the last element, reading is an error; else the
/// rows that the buffer holds whole are read, and leave it.
pub open spec fn chunk_step(m0: ChunkedModel) -> (ChunkedModel, Result<Seq<Seq<ValueModel>>, DeserializeCause>) {
    let m = load_header(m0);
    match m.header {
        None => (m, Ok(seq![])),
        Some(h) => if m.element >= h.elements.len() {
            (m, Err(DeserializeCause::OutOfElements))
        } else {
            match pending_rows(m) {
                Err(c) => (m, Err(c)),
                Ok((rows, p)) => (advanced(m, rows.len(), p), Ok(rows)),
            }
        },
    }
}

/// Streaming reader of PLY data that arrives in pieces.
pub struct PlyChunkedReader {
    header: Option<PlyHeader>,
    current_element_index: usize,
    rows_parsed: usize,
    data_buffer: Vec<u8>,
}

impl View for PlyChunkedReader {
    type V = ChunkedModel;

    closed spec fn view(&self) -> ChunkedModel {
        ChunkedModel {
            header: match self.header {
                Some(h) => Some(h@),
                None => None,
            },
            element: self.current_element_index as nat,
            rows: self.rows_parsed as nat,
            buffer: self.data_buffer@,
        }
    }
}

impl PlyChunkedReader {
    /// A reader that has read nothing yet.
    pub fn new() -> (r: PlyChunkedReader)
        ensures
            r@ == (ChunkedModel { header: None, element: 0, rows: 0, buffer: seq![] }),
            chunked_wf(r@),
    {
        let r = PlyChunkedReader {
            header: None,
            current_element_index: 0,
            rows_parsed: 0,
            data_buffer: Vec::new(),
        };
        assert(r@.buffer =~= Seq::<u8>::empty());
        r
    }

    /// The buffer that new data is written into, at its end.
    pub fn buffer_mut(&mut self) -> (r: &mut Vec<u8>)
        ensures
            r@ == old(self)@.buffer,
            final(self)@ == (ChunkedModel { buffer: final(r)@, ..old(self)@ }),
    {
        &mut self.data_buffer
    }

    /// Reads the header from the buffer if it is not read yet and the buffer holds it.
    fn load_header(&mut self)
        ensures
            final(self)@ == load_header(old(self)@),
            chunked_wf(old(self)@) ==> chunked_wf(final(self)@),
    {
        if self.header.is_none() {
            match PlyHeader::parse(self.data_buffer.as_slice()) {
                Ok((h, n)) => {
                    let rest = copy_range(self.data_buffer.as_slice(), n, self.data_buffer.len());
                    self.header = Some(h);
                    self.data_buffer = rest;
                },
                Err(_) => {},
            }
        }
    }

    /// The header, once the buffer has held all of it.
    pub fn header(&mut self) -> (r: Option<&PlyHeader>)
        ensures
            final(self)@ == load_header(old(self)@),
            chunked_wf(old(self)@) ==> chunked_wf(final(self)@),
            match r {
                Some(h) => final(self)@.header == Some(h@),
                None => final(self)@.header is None,
            },
    {
        self.load_header();
        self.header.as_ref()
    }

    /// The element whose rows are read next; `None` before the header is read and
    /// once all elements are.
    pub fn current_element(&mut self) -> (r: Option<&ElementDef>)
        ensures
            final(self)@ == load_header(old(self)@),
            chunked_wf(old(self)@) ==> chunked_wf(final(self)@),
            match final(self)@.header {
                Some(h) => if final(self)@.element < h.elements.len() {
                    r matches Some(e) && e@ == h.elements[final(self)@.element as int]
                } else {
                    r is None
                },
                None => r is None,
            },
    {
        self.load_header();
        let ind = self.current_element_index;
        match &self.header {
            Some(h) => {
                if ind < h.elem_defs.len() {
                    assert(crate::header::element_models(h.elem_defs@)[ind as int] == h.elem_defs@[ind as int]@);
                    Some(&h.elem_defs[ind])
                } else {
                    None
                }
            },
            None => None,
        }
    }

    /// The number of rows of the current element read so far.
    pub fn rows_done(&self) -> (r: usize)
        ensures
            r == self@.rows,
    {
        self.rows_parsed
    }
    /// Reads the header if it can, then the rows of the current element that the
    /// buffer holds whole, without taking them from the buffer: the rows and the
    /// number of bytes that they take.
    pub fn peek_chunk(&mut self) -> (r: Result<(Vec<Vec<PropertyValue>>, usize), DeserializeError>)
        requires
            chunked_wf(old(self)@),
        ensures
            final(self)@ == load_header(old(self)@),
            chunked_wf(final(self)@),
            match final(self)@.header {
                None => r matches Ok((v, n)) && v@.len() == 0 && n == 0,
                Some(h) => if final(self)@.element >= h.elements.len() {
                    r == Err::<(Vec<Vec<PropertyValue>>, usize), DeserializeError>(
                        DeserializeError(DeserializeCause::OutOfElements),
                    )
                } else {
                    match pending_rows(final(self)@) {
                        Ok((rows, p)) => r matches Ok((v, n)) && row_models(v@) == rows && n == p,
                        Err(c) => r == Err::<(Vec<Vec<PropertyValue>>, usize), DeserializeError>(
                            DeserializeError(c),
                        ),
                    }
                },
            },
    {
        self.load_header();
        self.pending_chunk()
    }

    /// The rows of the current element that the buffer holds whole, and the number
    /// of bytes that they take.
    fn pending_chunk(&self) -> (r: Result<(Vec<Vec<PropertyValue>>, usize), DeserializeError>)
        requires
            chunked_wf(self@),
        ensures
            match self@.header {
                None => r matches Ok((v, n)) && v@.len() == 0 && n == 0,
                Some(h) => if self@.element >= h.elements.len() {
                    r == Err::<(Vec<Vec<PropertyValue>>, usize), DeserializeError>(
                        DeserializeError(DeserializeCause::OutOfElements),
                    )
                } else {
                    match pending_rows(self@) {
                        Ok((rows, p)) => r matches Ok((v, n)) && row_models(v@) == rows && n == p,
                        Err(c) => r == Err::<(Vec<Vec<PropertyValue>>, usize), DeserializeError>(
                            DeserializeError(c),
                        ),
                    }
                },
            },
    {
        let ind = self.current_element_index;
        match &self.header {
            None => Ok((Vec::new(), 0)),
            Some(h) => {
                if ind >= h.elem_defs.len() {
                    return Err(DeserializeError(DeserializeCause::OutOfElements));
                }
                let e = &h.elem_defs[ind];
                proof {
                    let m = self@;
                    assert(crate::header::element_models(h.elem_defs@)[ind as int] == e@);
                    assert(current_def(m) == e@);
                    assert(e@.properties.map_values(|p: crate::header::PropertyModel| p.ty)
                        =~= property_types(e.properties@));
                }
                let remaining = e.count - self.rows_parsed;
                match read_available(h.format, &e.properties, self.data_buffer.as_slice(), 0, remaining) {
                    Ok((rows, p)) => Ok((rows, p)),
                    Err(c) => Err(DeserializeError(c)),
                }
            },
        }
    }

    /// Takes `rows` rows of the current element, read from the first `consumed`
    /// bytes of the buffer, as read: the bytes leave the buffer, and once all rows
    /// of the element are read, the next element begins.
    pub fn advance(&mut self, rows: usize, consumed: usize)
        requires
            chunked_wf(old(self)@),
            old(self)@.header is Some,
            old(self)@.element < old(self)@.header->Some_0.elements.len(),
            old(self)@.rows + rows <= current_def(old(self)@).count,
            consumed <= old(self)@.buffer.len(),
        ensures
            final(self)@ == advanced(old(self)@, rows as nat, consumed as nat),
            chunked_wf(final(self)@),
    {
        let h = self.header.as_ref().unwrap();
        assert(crate::header::element_models(h.elem_defs@)[self.current_element_index as int]
            == h.elem_defs@[self.current_element_index as int]@);
        let n_elems = h.elem_defs.len();
        assert(self.current_element_index < n_elems);
        let count = h.elem_defs[self.current_element_index].count;
        let rest = copy_range(self.data_buffer.as_slice(), consumed, self.data_buffer.len());
        self.data_buffer = rest;
        self.rows_parsed = self.rows_parsed + rows;
        if self.rows_parsed >= count {
            self.rows_parsed = 0;
            self.current_element_index = self.current_element_index + 1;
        }
    }

    /// Reads the rows of the current element that the buffer holds whole, and takes
    /// them from it; see [`chunk_step`].
    pub fn next_chunk(&mut self) -> (r: Result<Vec<Vec<PropertyValue>>, DeserializeError>)
        requires
            chunked_wf(old(self)@),
        ensures
            final(self)@ == chunk_step(old(self)@).0,
            chunked_wf(final(self)@),
            match chunk_step(old(self)@).1 {
                Ok(rows) => r matches Ok(v) && row_models(v@) == rows,
                Err(c) => r == Err::<Vec<Vec<PropertyValue>>, DeserializeError>(DeserializeError(c)),
            },
    {
        match self.peek_chunk() {
            Err(e) => Err(e),
            Ok((rows, consumed)) => {
                if self.header.is_some() {
                    proof {
                        crate::row::lemma_available_bounds(
                            self@.header->Some_0.format,
                            self@.header->Some_0.elements[self@.element as int].properties.map_values(
                                |p: crate::header::PropertyModel| p.ty,
                            ),
                            self@.buffer,
                            0,
                            (current_def(self@).count - self@.rows) as nat,
                        );
                    }
                    self.advance(rows.len(), consumed);
                }
                Ok(rows)
            },
        }
    }
}

/// A chunked reader under another name, with the same behaviour.
pub struct ChunkPlyFile {
    reader: PlyChunkedReader,
}

impl View for ChunkPlyFile {
    type V = ChunkedModel;

    closed spec fn view(&self) -> ChunkedModel {
        self.reader@
    }
}

impl ChunkPlyFile {
    /// A reader that has read nothing yet.
    pub fn new() -> (r: ChunkPlyFile)
        ensures
            r@ == (ChunkedModel { header: None, element: 0, rows: 0, buffer: seq![] }),
            chunked_wf(r@),
    {
        ChunkPlyFile { reader: PlyChunkedReader::new() }
    }

    /// The buffer that new data is written into, at its end.
    pub fn buffer_mut(&mut self) -> (r: &mut Vec<u8>)
        ensures
            r@ == old(self)@.buffer,
            final(self)@ == (ChunkedModel { buffer: final(r)@, ..old(self)@ }),
    {
        self.reader.buffer_mut()
    }

    /// The header, once the buffer has held all of it.
    pub fn header(&mut self) -> (r: Option<&PlyHeader>)
        ensures
            final(self)@ == load_header(old(self)@),
            chunked_wf(old(self)@) ==> chunked_wf(final(self)@),
            match r {
                Some(h) => final(self)@.header == Some(h@),
                None => final(self)@.header is None,
            },
    {
        self.reader.header()
    }

    /// Reads the rows of the current element that the buffer holds whole; see [`chunk_step`].
    pub fn next_chunk(&mut self) -> (r: Result<Vec<Vec<PropertyValue>>, DeserializeError>)
        requires
            chunked_wf(old(self)@),
        ensures
            final(self)@ == chunk_step(old(self)@).0,
            chunked_wf(final(self)@),
            match chunk_step(old(self)@).1 {
                Ok(rows) => r matches Ok(v) && row_models(v@) == rows,
                Err(c) => r == Err::<Vec<Vec<PropertyValue>>, DeserializeError>(DeserializeError(c)),
            },
    {
        self.reader.next_chunk()
    }
}

/// `e` is the position of the last byte of the first `end_header\n` in `s`.
pub open spec fn is_header_end(s: Seq<u8>, e: int) -> bool {
    &&& e >= 10
    &&& occurs_at(s, kw_end_header(), e - 10)
    &&& forall|j: int| 0 <= j < e - 10 ==> !occurs_at(s, kw_end_header(), j)
}

pub proof fn lemma_header_end_unique(s: Seq<u8>, e1: int, e2: int)
    requires
        is_header_end(s, e1),
        is_header_end(s, e2),
    ensures
        e1 == e2,
{
    if e1 < e2 {
        assert(!occurs_at(s, kw_end_header(), e1 - 10));
    } else if e2 < e1 {
        assert(!occurs_at(s, kw_end_header(), e2 - 10));
    }
}

/// The state once the header is read, when the buffer holds `end_header\n`: the
/// header is read from the bytes through its first occurrence, which leave the
/// buffer. Without it, or when those bytes are no header, the state is as it is.
pub open spec fn load_header_at_end(m: ChunkedModel) -> ChunkedModel {
    match m.header {
        Some(_) => m,
        None => if exists|e: int| is_header_end(m.buffer, e) {
            let e = choose|e: int| is_header_end(m.buffer, e);
            match parse_header(m.buffer.take(e + 1)) {
                Ok((h, _)) => ChunkedModel { header: Some(h), buffer: m.buffer.skip(e + 1), ..m },
                Err(_) => m,
            }
        } else {
            m
        },
    }
}

/// One step of reading with a [`PlyFile`]: as [`chunk_step`], but the header is
/// looked for by its end, reading rows before the header is an error, and once
/// every element is read there are no more rows.
pub open spec fn file_step(m0: ChunkedModel) -> (ChunkedModel, Result<Seq<Seq<ValueModel>>, DeserializeCause>) {
    let m = load_header_at_end(m0);
    match m.header {
        None => (m, Err(DeserializeCause::HeaderNotReady)),
        Some(h) => if m.element >= h.elements.len() {
            (m, Ok(seq![]))
        } else {
            match pending_rows(m) {
                Err(c) => (m, Err(c)),
                Ok((rows, p)) => (advanced(m, rows.len(), p), Ok(rows)),
            }
        },
    }
}

/// A chunked reader that waits for `end_header\n` before it reads the header.
pub struct PlyFile {
    reader: PlyChunkedReader,
}

impl View for PlyFile {
    type V = ChunkedModel;

    closed spec fn view(&self) -> ChunkedModel {
        self.reader@
    }
}

impl PlyFile {
    /// A reader that has read nothing yet.
    pub fn new() -> (r: PlyFile)
        ensures
            r@ == (ChunkedModel { header: None, element: 0, rows: 0, buffer: seq![] }),
            chunked_wf(r@),
    {
        PlyFile { reader: PlyChunkedReader::new() }
    }

    /// The buffer that new data is written into, at its end.
    pub fn buffer_mut(&mut self) -> (r: &mut Vec<u8>)
        ensures
            r@ == old(self)@.buffer,
            final(self)@ == (ChunkedModel { buffer: final(r)@, ..old(self)@ }),
    {
        self.reader.buffer_mut()
    }

    fn load_header(&mut self)
        ensures
            final(self)@ == load_header_at_end(old(self)@),
            chunked_wf(old(self)@) ==> chunked_wf(final(self)@),
    {
        if self.reader.header.is_none() {
            let buffer = self.reader.data_buffer.as_slice();
            let blen = buffer.len();
            match find_header_end(buffer) {
                Some(end_pos) => {
                    proof {
                        assert(kw_end_header().len() == 11);
                        assert(is_header_end(buffer@, end_pos as int));
                        assert(occurs_at(buffer@, kw_end_header(), end_pos - 10));
                        assert(end_pos + 1 <= buffer@.len());
                        assert forall|e: int| is_header_end(buffer@, e) implies e == end_pos by {
                            lemma_header_end_unique(buffer@, e, end_pos as int);
                        }
                    }
                    let header_data = copy_range(buffer, 0, end_pos + 1);
                    let leftover = copy_range(buffer, end_pos + 1, buffer.len());
                    assert(header_data@ =~= buffer@.take(end_pos + 1));
                    match PlyHeader::parse(header_data.as_slice()) {
                        Ok((h, _)) => {
                            self.reader.header = Some(h);
                            self.reader.data_buffer = leftover;
                        },
                        Err(_) => {},
                    }
                },
                None => {
                    proof {
                        assert forall|e: int| !is_header_end(buffer@, e) by {}
                    }
                },
            }
        }
    }

    /// The header, once the buffer has held `end_header\n`.
    pub fn header(&mut self) -> (r: Option<&PlyHeader>)
        ensures
            final(self)@ == load_header_at_end(old(self)@),
            chunked_wf(old(self)@) ==> chunked_wf(final(self)@),
            match r {
                Some(h) => final(self)@.header == Some(h@),
                None => final(self)@.header is None,
            },
    {
        self.load_header();
        self.reader.header.as_ref()
    }

    /// Reads the rows of the current element that the buffer holds whole; see [`file_step`].
    pub fn next_chunk(&mut self) -> (r: Result<Vec<Vec<PropertyValue>>, DeserializeError>)
        requires
            chunked_wf(old(self)@),
        ensures
            final(self)@ == file_step(old(self)@).0,
            chunked_wf(final(self)@),
            match file_step(old(self)@).1 {
                Ok(rows) => r matches Ok(v) && row_models(v@) == rows,
                Err(c) => r == Err::<Vec<Vec<PropertyValue>>, DeserializeError>(DeserializeError(c)),
            },
    {
        self.load_header();
        let done = match &self.reader.header {
            None => {
                return Err(DeserializeError(DeserializeCause::HeaderNotReady));
            },
            Some(h) => self.reader.current_element_index >= h.elem_defs.len(),
        };
        if done {
            return Ok(Vec::new());
        }
        match self.reader.pending_chunk() {
            Err(e) => Err(e),
            Ok((rows, consumed)) => {
                proof {
                    crate::row::lemma_available_bounds(
                        self@.header->Some_0.format,
                        self@.header->Some_0.elements[self@.element as int].properties.map_values(
                            |p: crate::header::PropertyModel| p.ty,
                        ),
                        self@.buffer,
                        0,
                        (current_def(self@).count - self@.rows) as nat,
                    );
                }
                self.reader.advance(rows.len(), consumed);
                Ok(rows)
            },
        }
    }
}

impl Default for ChunkPlyFile {
    fn default() -> (r: ChunkPlyFile)
        ensures
            r@ == (ChunkedModel { header: None, element: 0, rows: 0, buffer: seq![] }),
    {
        ChunkPlyFile::new()
    }
}

impl Default for PlyFile {
    fn default() -> (r: PlyFile)
        ensures
            r@ == (ChunkedModel { header: None, element: 0, rows: 0, buffer: seq![] }),
    {
        PlyFile::new()
    }
}

impl Default for PlyChunkedReader {
    fn default() -> (r: PlyChunkedReader)
        ensures
            r@ == (ChunkedModel { header: None, element: 0, rows: 0, buffer: seq![] }),
    {
        PlyChunkedReader::new()
    }
}

/// Once the header is read, it stays: reading rows neither changes nor loses it.
pub proof fn lemma_header_stays(m: ChunkedModel)
    requires
        m.header is Some,
    ensures
        load_header(m) == m,
        chunk_step(m).0.header == m.header,
        file_step(m).0.header == m.header,
{
}

/// A chunk never holds more rows than the current element has left, and its bytes
/// lie in the buffer.
pub proof fn lemma_chunk_bounds(m: ChunkedModel)
    requires
        chunked_wf(m),
        m.header is Some,
        m.element < m.header->Some_0.elements.len(),
    ensures
        pending_rows(m) matches Ok((rows, p)) ==> rows.len() <= current_def(m).count - m.rows && p
            <= m.buffer.len(),
{
    crate::row::lemma_available_bounds(
        m.header->Some_0.format,
        current_def(m).properties.map_values(|p: crate::header::PropertyModel| p.ty),
        m.buffer,
        0,
        (current_def(m).count - m.rows) as nat,
    );
}

} // verus!
