//! Writing PLY data: the header that the data's shape calls for, then the rows of
//! each element.

use vstd::prelude::*;
use crate::error::{SerializeCause, SerializeError};
use crate::header::{
    header_text_with, lemma_ascii_valid_utf8, property_models, str_bytes, string_models, text_of,
    ElementDef, ElementModel, HeaderModel, PlyHeader, PlyProperty, PropertyModel, PropertyType,
    element_models,
};
use crate::row::{encode_row, row_error, write_row};
use crate::scalar::{PlyFormat, ScalarType};
use crate::value::{
    cell_type, field_models, field_values, row_writable, Cell, Field, FieldModel, PropertyValue,
    ValueModel,
};
use crate::words::{kw_version, kw_version_bytes};

verus! {

/// Options of writing: the format, and the comments and object information of the header.
pub struct SerializeOptions {
    format: PlyFormat,
    comments: Vec<String>,
    obj_info: Vec<String>,
}

pub struct OptionsModel {
    pub format: PlyFormat,
    pub comments: Seq<Seq<u8>>,
    pub obj_info: Seq<Seq<u8>>,
}

impl View for SerializeOptions {
    type V = OptionsModel;

    closed spec fn view(&self) -> OptionsModel {
        OptionsModel {
            format: self.format,
            comments: string_models(self.comments@),
            obj_info: string_models(self.obj_info@),
        }
    }
}

impl SerializeOptions {
    /// Options with the given format and no comments or object information.
    pub fn new(format: PlyFormat) -> (r: SerializeOptions)
        ensures
            r@ == (OptionsModel { format, comments: seq![], obj_info: seq![] }),
    {
        let r = SerializeOptions { format, comments: Vec::new(), obj_info: Vec::new() };
        assert(r@.comments =~= Seq::<Seq<u8>>::empty());
        assert(r@.obj_info =~= Seq::<Seq<u8>>::empty());
        r
    }

    /// Options for the ASCII format.
    pub fn ascii() -> (r: SerializeOptions)
        ensures
            r@ == (OptionsModel { format: PlyFormat::Ascii, comments: seq![], obj_info: seq![] }),
    {
        Self::new(PlyFormat::Ascii)
    }

    /// Options for the little-endian binary format.
    pub fn binary_le() -> (r: SerializeOptions)
        ensures
            r@ == (OptionsModel {
                format: PlyFormat::BinaryLittleEndian,
                comments: seq![],
                obj_info: seq![],
            }),
    {
        Self::new(PlyFormat::BinaryLittleEndian)
    }

    /// Options for the big-endian binary format.
    pub fn binary_be() -> (r: SerializeOptions)
        ensures
            r@ == (OptionsModel {
                format: PlyFormat::BinaryBigEndian,
                comments: seq![],
                obj_info: seq![],
            }),
    {
        Self::new(PlyFormat::BinaryBigEndian)
    }

    /// The options with `comments` added after the comments they have.
    pub fn with_comments(self, comments: Vec<String>) -> (r: SerializeOptions)
        ensures
            r@ == (OptionsModel { comments: self@.comments + string_models(comments@), ..self@ }),
    {
        let mut me = self;
        let mut more = comments;
        let ghost before = me.comments@;
        let ghost added = more@;
        me.comments.append(&mut more);
        assert(string_models(me.comments@) =~= string_models(before) + string_models(added));
        me
    }

    /// The options with `obj_info` added after the object information they have.
    pub fn with_obj_info(self, obj_info: Vec<String>) -> (r: SerializeOptions)
        ensures
            r@ == (OptionsModel { obj_info: self@.obj_info + string_models(obj_info@), ..self@ }),
    {
        let mut me = self;
        let mut more = obj_info;
        let ghost before = me.obj_info@;
        let ghost added = more@;
        me.obj_info.append(&mut more);
        assert(string_models(me.obj_info@) =~= string_models(before) + string_models(added));
        me
    }

    /// The format.
    pub fn format(&self) -> (r: PlyFormat)
        ensures
            r == self@.format,
    {
        self.format
    }
}

/// The rows of one element to write, under the element's name.
#[derive(Clone, Debug, PartialEq)]
pub struct ElementData {
    pub name: String,
    pub rows: Vec<Vec<Field>>,
}

pub struct ElementDataModel {
    pub name: Seq<u8>,
    pub rows: Seq<Seq<FieldModel>>,
}

pub open spec fn field_rows_models(v: Seq<Vec<Field>>) -> Seq<Seq<FieldModel>> {
    v.map_values(|r: Vec<Field>| field_models(r@))
}

impl View for ElementData {
    type V = ElementDataModel;

    open spec fn view(&self) -> ElementDataModel {
        ElementDataModel { name: str_bytes(self.name), rows: field_rows_models(self.rows@) }
    }
}

pub open spec fn element_data_models(v: Seq<ElementData>) -> Seq<ElementDataModel> {
    v.map_values(|e: ElementData| e@)
}

// ---------------------------------------------------------------------------
// The header from the data's shape.
/// The property that a field of the first row declares: its scalar type, or for a
/// list, its count type and the type of its first element. An empty list declares
/// none, and a list of `double` cannot be declared.
pub open spec fn field_property(f: FieldModel) -> Result<Option<PropertyModel>, SerializeCause> {
    match f.value {
        ValueModel::Scalar(c) => Ok(Some(PropertyModel { name: f.name, ty: PropertyType::Scalar(cell_type(c)) })),
        ValueModel::List(ct, cs) => if cs.len() == 0 {
            Ok(None)
        } else if cell_type(cs[0]) == ScalarType::F64 {
            Err(SerializeCause::UnsupportedType)
        } else {
            Ok(
                Some(
                    PropertyModel {
                        name: f.name,
                        ty: PropertyType::List { count_type: ct, data_type: cell_type(cs[0]) },
                    },
                ),
            )
        },
    }
}

/// The properties that the fields of a row declare, in order.
pub open spec fn row_properties(fs: Seq<FieldModel>) -> Result<Seq<PropertyModel>, SerializeCause>
    decreases fs.len(),
{
    if fs.len() == 0 {
        Ok(seq![])
    } else {
        match row_properties(fs.drop_last()) {
            Err(e) => Err(e),
            Ok(ps) => match field_property(fs.last()) {
                Err(e) => Err(e),
                Ok(Some(p)) => Ok(ps.push(p)),
                Ok(None) => Ok(ps),
            },
        }
    }
}

/// The element that rows declare: as many rows as there are, with the properties
/// of the first row (none without rows).
pub open spec fn element_header(e: ElementDataModel) -> Result<ElementModel, SerializeCause> {
    if e.rows.len() == 0 {
        Ok(ElementModel { name: e.name, count: 0, properties: seq![] })
    } else {
        match row_properties(e.rows[0]) {
            Err(x) => Err(x),
            Ok(ps) => Ok(ElementModel { name: e.name, count: e.rows.len(), properties: ps }),
        }
    }
}

pub open spec fn collect_elements(es: Seq<ElementDataModel>) -> Result<Seq<ElementModel>, SerializeCause>
    decreases es.len(),
{
    if es.len() == 0 {
        Ok(seq![])
    } else {
        match collect_elements(es.drop_last()) {
            Err(x) => Err(x),
            Ok(ms) => match element_header(es.last()) {
                Err(x) => Err(x),
                Ok(m) => Ok(ms.push(m)),
            },
        }
    }
}

/// The header that data of this shape is written with: version `1.0`, the
/// comments and object information of the options, and an element for each element.
pub open spec fn collected_header(o: OptionsModel, es: Seq<ElementDataModel>) -> Result<HeaderModel, SerializeCause> {
    match collect_elements(es) {
        Err(x) => Err(x),
        Ok(ms) => Ok(
            HeaderModel {
                format: o.format,
                version: kw_version(),
                elements: ms,
                comments: o.comments,
                obj_info: o.obj_info,
            },
        ),
    }
}

// ---------------------------------------------------------------------------
// What the collected header declares, in terms of the data.
/// A field whose value is a non-empty list that begins with a `double`.
pub open spec fn double_list(f: FieldModel) -> bool {
    f.value matches ValueModel::List(_, cs) && cs.len() > 0 && cell_type(cs[0]) == ScalarType::F64
}

/// No element's first row has a list that begins with a `double`.
pub open spec fn declarable(es: Seq<ElementDataModel>) -> bool {
    forall|i: int, j: int|
        0 <= i < es.len() && es[i].rows.len() > 0 && 0 <= j < es[i].rows[0].len() ==> !double_list(
            #[trigger] es[i].rows[0][j],
        )
}

proof fn lemma_row_properties_ok(fs: Seq<FieldModel>)
    ensures
        row_properties(fs) is Ok <==> forall|j: int| 0 <= j < fs.len() ==> !double_list(#[trigger] fs[j]),
    decreases fs.len(),
{
    if fs.len() > 0 {
        let init = fs.drop_last();
        lemma_row_properties_ok(init);
        assert forall|j: int| 0 <= j < init.len() implies init[j] == fs[j] by {}
        if forall|j: int| 0 <= j < fs.len() ==> !double_list(#[trigger] fs[j]) {
            assert forall|j: int| 0 <= j < init.len() implies !double_list(#[trigger] init[j]) by {
                assert(init[j] == fs[j]);
            }
            assert(!double_list(fs[fs.len() - 1]));
        } else {
            let j = choose|j: int| 0 <= j < fs.len() && double_list(#[trigger] fs[j]);
            if j < init.len() {
                assert(init[j] == fs[j]);
                assert(double_list(init[j]));
            }
        }
    }
}

/// A field of a row that is a scalar, or a list that is not empty, is declared
/// as a property of the same name, with the scalar's type, or with the list's
/// count type and the type of its first element.
proof fn lemma_row_property_of(fs: Seq<FieldModel>, j: int) -> (k: int)
    requires
        row_properties(fs) is Ok,
        0 <= j < fs.len(),
        !(fs[j].value matches ValueModel::List(_, cs) && cs.len() == 0),
    ensures
        0 <= k < row_properties(fs)->Ok_0.len(),
        fs[j].value matches ValueModel::Scalar(c) ==> row_properties(fs)->Ok_0[k] == (PropertyModel {
            name: fs[j].name,
            ty: PropertyType::Scalar(cell_type(c)),
        }),
        fs[j].value matches ValueModel::List(ct, cs) ==> row_properties(fs)->Ok_0[k] == (PropertyModel {
            name: fs[j].name,
            ty: PropertyType::List { count_type: ct, data_type: cell_type(cs[0]) },
        }),
    decreases fs.len(),
{
    let init = fs.drop_last();
    let ps = row_properties(init)->Ok_0;
    if j == fs.len() - 1 {
        ps.len() as int
    } else {
        assert(init[j] == fs[j]);
        let k = lemma_row_property_of(init, j);
        assert(row_properties(fs)->Ok_0[k] == ps[k]);
        k
    }
}

proof fn lemma_collect_elements(es: Seq<ElementDataModel>)
    ensures
        collect_elements(es) is Ok <==> forall|i: int| 0 <= i < es.len() ==> (#[trigger] element_header(es[i])) is Ok,
        collect_elements(es) matches Ok(ms) ==> ms.len() == es.len() && forall|i: int|
            0 <= i < es.len() ==> Ok::<ElementModel, SerializeCause>(#[trigger] ms[i]) == element_header(es[i]),
    decreases es.len(),
{
    if es.len() > 0 {
        let init = es.drop_last();
        lemma_collect_elements(init);
        assert forall|i: int| 0 <= i < init.len() implies init[i] == es[i] by {}
        if forall|i: int| 0 <= i < es.len() ==> (#[trigger] element_header(es[i])) is Ok {
            assert forall|i: int| 0 <= i < init.len() implies (#[trigger] element_header(init[i])) is Ok by {
                assert(init[i] == es[i]);
            }
            assert(element_header(es[es.len() - 1]) is Ok);
            let ms = collect_elements(es)->Ok_0;
            assert forall|i: int| 0 <= i < es.len() implies Ok::<ElementModel, SerializeCause>(
                #[trigger] ms[i],
            ) == element_header(es[i]) by {
                if i < init.len() {
                    assert(element_header(init[i]) == element_header(es[i]));
                }
            }
        } else {
            let i = choose|i: int| 0 <= i < es.len() && (#[trigger] element_header(es[i])) is Err;
            if i < init.len() {
                assert(init[i] == es[i]);
                assert(element_header(init[i]) is Err);
            }
        }
    }
}

/// The header collected from data: it can be collected exactly when no element's
/// first row has a list that begins with a `double`; it has the options' format,
/// comments and object information, and an element for each element of the data,
/// under its name, with as many rows as it has.
pub proof fn lemma_collected_header_shape(o: OptionsModel, es: Seq<ElementDataModel>)
    ensures
        collected_header(o, es) is Ok <==> declarable(es),
        collected_header(o, es) matches Ok(h) ==> {
            &&& h.format == o.format
            &&& h.comments == o.comments
            &&& h.obj_info == o.obj_info
            &&& h.elements.len() == es.len()
            &&& forall|i: int|
                0 <= i < es.len() ==> (#[trigger] h.elements[i]).name == es[i].name && h.elements[i].count
                    == es[i].rows.len()
        },
{
    lemma_collect_elements(es);
    assert forall|i: int| 0 <= i < es.len() implies ((#[trigger] element_header(es[i])) is Ok <==> forall|j: int|
        es[i].rows.len() > 0 && 0 <= j < es[i].rows[0].len() ==> !double_list(es[i].rows[0][j])) by {
        if es[i].rows.len() > 0 {
            lemma_row_properties_ok(es[i].rows[0]);
        }
    }
    if declarable(es) {
        assert forall|i: int| 0 <= i < es.len() implies (#[trigger] element_header(es[i])) is Ok by {
            if es[i].rows.len() > 0 {
                lemma_row_properties_ok(es[i].rows[0]);
                assert forall|j: int| 0 <= j < es[i].rows[0].len() implies !double_list(
                    #[trigger] es[i].rows[0][j],
                ) by {}
            }
        }
    } else {
        let (i, j) = choose|i: int, j: int|
            0 <= i < es.len() && es[i].rows.len() > 0 && 0 <= j < es[i].rows[0].len() && double_list(
                #[trigger] es[i].rows[0][j],
            );
        lemma_row_properties_ok(es[i].rows[0]);
        assert(element_header(es[i]) is Err);
    }
    if collected_header(o, es) is Ok {
        let ms = collect_elements(es)->Ok_0;
        assert forall|i: int| 0 <= i < es.len() implies (#[trigger] ms[i]).name == es[i].name && ms[i].count
            == es[i].rows.len() by {
            assert(Ok::<ElementModel, SerializeCause>(ms[i]) == element_header(es[i]));
        }
    }
}

/// Each field of an element's first row that is a scalar, or a list that is not
/// empty, is declared in the collected header: a property `k` of the element with
/// the field's name and the scalar's type, or with the list's count type and the
/// type of its first element (of any type but `double`, which cannot be collected).
pub proof fn lemma_collected_header_declares(o: OptionsModel, es: Seq<ElementDataModel>, i: int, j: int) -> (k: int)
    requires
        collected_header(o, es) is Ok,
        0 <= i < es.len(),
        es[i].rows.len() > 0,
        0 <= j < es[i].rows[0].len(),
        !(es[i].rows[0][j].value matches ValueModel::List(_, cs) && cs.len() == 0),
    ensures
        ({
            let props = collected_header(o, es)->Ok_0.elements[i].properties;
            let fld = es[i].rows[0][j];
            &&& 0 <= k < props.len()
            &&& fld.value matches ValueModel::Scalar(c) ==> props[k] == (PropertyModel {
                name: fld.name,
                ty: PropertyType::Scalar(cell_type(c)),
            })
            &&& fld.value matches ValueModel::List(ct, cs) ==> props[k] == (PropertyModel {
                name: fld.name,
                ty: PropertyType::List { count_type: ct, data_type: cell_type(cs[0]) },
            })
        }),
{
    lemma_collect_elements(es);
    let ms = collect_elements(es)->Ok_0;
    assert(Ok::<ElementModel, SerializeCause>(ms[i]) == element_header(es[i]));
    lemma_row_property_of(es[i].rows[0], j)
}

fn field_property_of(f: &Field) -> (r: Result<Option<PlyProperty>, SerializeCause>)
    ensures
        match field_property(f@) {
            Ok(Some(p)) => r matches Ok(Some(q)) && q@ == p,
            Ok(None) => r matches Ok(None),
            Err(e) => r == Err::<Option<PlyProperty>, SerializeCause>(e),
        },
{
    match &f.value {
        PropertyValue::Scalar(c) => Ok(
            Some(PlyProperty { name: f.name.clone(), property_type: PropertyType::Scalar(c.scalar_type()) }),
        ),
        PropertyValue::List(ct, cs) => {
            if cs.len() == 0 {
                Ok(None)
            } else {
                assert(crate::value::cell_models(cs@)[0] == cs@[0]@);
                let t = cs[0].scalar_type();
                match t {
                    ScalarType::F64 => Err(SerializeCause::UnsupportedType),
                    _ => Ok(
                        Some(
                            PlyProperty {
                                name: f.name.clone(),
                                property_type: PropertyType::List { count_type: *ct, data_type: t },
                            },
                        ),
                    ),
                }
            }
        },
    }
}

fn row_properties_of(row: &Vec<Field>) -> (r: Result<Vec<PlyProperty>, SerializeCause>)
    ensures
        match row_properties(field_models(row@)) {
            Ok(ps) => r matches Ok(v) && property_models(v@) == ps,
            Err(e) => r == Err::<Vec<PlyProperty>, SerializeCause>(e),
        },
{
    let ghost fs = field_models(row@);
    let mut props: Vec<PlyProperty> = Vec::new();
    let mut i: usize = 0;
    assert(fs.take(0) =~= Seq::<FieldModel>::empty());
    assert(property_models(props@) =~= Seq::<PropertyModel>::empty());
    while i < row.len()
        invariant
            i <= row@.len(),
            fs == field_models(row@),
            row_properties(fs.take(i as int)) == Ok::<Seq<PropertyModel>, SerializeCause>(
                property_models(props@),
            ),
        decreases row@.len() - i,
    {
        let ghost before = props@;
        proof {
            assert(fs.take(i + 1).drop_last() =~= fs.take(i as int));
            assert(fs.take(i + 1).last() == row@[i as int]@);
        }
        match field_property_of(&row[i]) {
            Err(e) => {
                proof {
                    lemma_row_properties_err(fs, i as int);
                }
                return Err(e);
            },
            Ok(Some(p)) => {
                props.push(p);
                assert(property_models(props@) =~= property_models(before).push(p@));
            },
            Ok(None) => {},
        }
        i = i + 1;
    }
    assert(fs.take(row@.len() as int) =~= fs);
    Ok(props)
}

/// An error in the `i`-th field is the error of the whole row, when the fields
/// before it have none.
proof fn lemma_row_properties_err(fs: Seq<FieldModel>, i: int)
    requires
        0 <= i < fs.len(),
        row_properties(fs.take(i)) is Ok,
        field_property(fs[i]) is Err,
    ensures
        row_properties(fs) == Err::<Seq<PropertyModel>, SerializeCause>(field_property(fs[i])->Err_0),
    decreases fs.len(),
{
    if i == fs.len() - 1 {
        assert(fs.drop_last() =~= fs.take(i));
    } else {
        assert(fs.drop_last().take(i) =~= fs.take(i));
        assert(fs.drop_last()[i] == fs[i]);
        lemma_row_properties_err(fs.drop_last(), i);
    }
}

fn element_header_of(e: &ElementData) -> (r: Result<ElementDef, SerializeCause>)
    ensures
        match element_header(e@) {
            Ok(m) => r matches Ok(d) && d@ == m,
            Err(x) => r == Err::<ElementDef, SerializeCause>(x),
        },
{
    if e.rows.len() == 0 {
        let d = ElementDef { name: e.name.clone(), count: 0, properties: Vec::new() };
        assert(property_models(d.properties@) =~= Seq::<PropertyModel>::empty());
        Ok(d)
    } else {
        assert(field_rows_models(e.rows@)[0] == field_models(e.rows@[0]@));
        match row_properties_of(&e.rows[0]) {
            Err(x) => Err(x),
            Ok(props) => Ok(ElementDef { name: e.name.clone(), count: e.rows.len(), properties: props }),
        }
    }
}

/// Makes the headers of the elements of `data`, in order.
fn collect_elements_of(data: &Vec<ElementData>) -> (r: Result<Vec<ElementDef>, SerializeCause>)
    ensures
        match collect_elements(element_data_models(data@)) {
            Ok(ms) => r matches Ok(v) && element_models(v@) == ms,
            Err(x) => r == Err::<Vec<ElementDef>, SerializeCause>(x),
        },
{
    let ghost es = element_data_models(data@);
    let mut defs: Vec<ElementDef> = Vec::new();
    let mut i: usize = 0;
    assert(es.take(0) =~= Seq::<ElementDataModel>::empty());
    assert(element_models(defs@) =~= Seq::<ElementModel>::empty());
    while i < data.len()
        invariant
            i <= data@.len(),
            es == element_data_models(data@),
            collect_elements(es.take(i as int)) == Ok::<Seq<ElementModel>, SerializeCause>(
                element_models(defs@),
            ),
        decreases data@.len() - i,
    {
        let ghost before = defs@;
        proof {
            assert(es.take(i + 1).drop_last() =~= es.take(i as int));
            assert(es.take(i + 1).last() == data@[i as int]@);
        }
        match element_header_of(&data[i]) {
            Err(x) => {
                proof {
                    lemma_collect_err(es, i as int);
                }
                return Err(x);
            },
            Ok(d) => {
                defs.push(d);
                assert(element_models(defs@) =~= element_models(before).push(d@));
            },
        }
        i = i + 1;
    }
    assert(es.take(data@.len() as int) =~= es);
    Ok(defs)
}

proof fn lemma_collect_err(es: Seq<ElementDataModel>, i: int)
    requires
        0 <= i < es.len(),
        collect_elements(es.take(i)) is Ok,
        element_header(es[i]) is Err,
    ensures
        collect_elements(es) == Err::<Seq<ElementModel>, SerializeCause>(element_header(es[i])->Err_0),
    decreases es.len(),
{
    if i == es.len() - 1 {
        assert(es.drop_last() =~= es.take(i));
    } else {
        assert(es.drop_last().take(i) =~= es.take(i));
        assert(es.drop_last()[i] == es[i]);
        lemma_collect_err(es.drop_last(), i);
    }
}

/// Collects the header of data from its shape.
pub struct HeaderCollector {
    format: PlyFormat,
    comments: Vec<String>,
    obj_info: Vec<String>,
}

impl View for HeaderCollector {
    type V = OptionsModel;

    closed spec fn view(&self) -> OptionsModel {
        OptionsModel {
            format: self.format,
            comments: string_models(self.comments@),
            obj_info: string_models(self.obj_info@),
        }
    }
}

impl HeaderCollector {
    /// A collector for the format, with no comments or object information.
    pub fn new(format: PlyFormat) -> (r: HeaderCollector)
        ensures
            r@ == (OptionsModel { format, comments: seq![], obj_info: seq![] }),
    {
        let r = HeaderCollector { format, comments: Vec::new(), obj_info: Vec::new() };
        assert(r@.comments =~= Seq::<Seq<u8>>::empty());
        assert(r@.obj_info =~= Seq::<Seq<u8>>::empty());
        r
    }

    /// A collector for the options.
    pub fn from_options(options: SerializeOptions) -> (r: HeaderCollector)
        ensures
            r@ == options@,
    {
        HeaderCollector { format: options.format, comments: options.comments, obj_info: options.obj_info }
    }

    /// The header of the data; see [`collected_header`].
    pub fn collect(&self, data: &Vec<ElementData>) -> (r: Result<PlyHeader, SerializeError>)
        ensures
            match collected_header(self@, element_data_models(data@)) {
                Ok(h) => r matches Ok(hh) && hh@ == h,
                Err(x) => r is Err && r->Err_0 == SerializeError(x),
            },
    {
        let defs = match collect_elements_of(data) {
            Ok(d) => d,
            Err(x) => {
                return Err(SerializeError(x));
            },
        };
        let v = kw_version_bytes();
        proof {
            assert forall|i: int| 0 <= i < v@.len() implies #[trigger] v@[i] < 128 by {}
            lemma_ascii_valid_utf8(v@);
        }
        let version = text_of(v.as_slice());
        Ok(
            PlyHeader {
                format: self.format,
                version,
                elem_defs: defs,
                comments: copy_strings(&self.comments),
                obj_info: copy_strings(&self.obj_info),
            },
        )
    }

    /// The text of the header of the data, the element types of lists by their
    /// sized names.
    pub fn write_header(&self, data: &Vec<ElementData>) -> (r: Result<Vec<u8>, SerializeError>)
        ensures
            match collected_header(self@, element_data_models(data@)) {
                Ok(h) => r matches Ok(b) && b@ == header_text_with(h, true),
                Err(x) => r is Err && r->Err_0 == SerializeError(x),
            },
            r matches Ok(b) ==> vstd::utf8::valid_utf8(b@),
    {
        match self.collect(data) {
            Ok(h) => {
                let mut out: Vec<u8> = Vec::new();
                h.write_text(&mut out, true);
                assert(out@ =~= header_text_with(h@, true));
                proof {
                    crate::header_proof::lemma_header_strings(&h);
                    crate::header_proof::lemma_header_text_valid(h@, true);
                }
                Ok(out)
            },
            Err(e) => Err(e),
        }
    }
}

/// A copy of strings.
fn copy_strings(v: &Vec<String>) -> (r: Vec<String>)
    ensures
        r@ == v@,
{
    let mut r: Vec<String> = Vec::new();
    let mut i: usize = 0;
    while i < v.len()
        invariant
            i <= v@.len(),
            r@ == v@.take(i as int),
        decreases v@.len() - i,
    {
        r.push(v[i].clone());
        i = i + 1;
        assert(r@ =~= v@.take(i as int));
    }
    assert(v@.take(v@.len() as int) =~= v@);
    r
}

// ---------------------------------------------------------------------------
// The body.
/// Why rows cannot be written: the first row, in order, that cannot be.
pub open spec fn rows_error(rows: Seq<Seq<FieldModel>>) -> Option<SerializeCause>
    decreases rows.len(),
{
    if rows.len() == 0 {
        None
    } else {
        match rows_error(rows.drop_last()) {
            Some(x) => Some(x),
            None => row_error(field_values(rows.last())),
        }
    }
}

/// The bytes of rows, one after the other.
pub open spec fn rows_bytes(f: PlyFormat, rows: Seq<Seq<FieldModel>>) -> Seq<u8>
    decreases rows.len(),
{
    if rows.len() == 0 {
        seq![]
    } else {
        rows_bytes(f, rows.drop_last()) + encode_row(f, field_values(rows.last()))
    }
}

pub open spec fn body_error(es: Seq<ElementDataModel>) -> Option<SerializeCause>
    decreases es.len(),
{
    if es.len() == 0 {
        None
    } else {
        match body_error(es.drop_last()) {
            Some(x) => Some(x),
            None => rows_error(es.last().rows),
        }
    }
}

/// The rows of all elements, element after element.
pub open spec fn body_bytes(f: PlyFormat, es: Seq<ElementDataModel>) -> Seq<u8>
    decreases es.len(),
{
    if es.len() == 0 {
        seq![]
    } else {
        body_bytes(f, es.drop_last()) + rows_bytes(f, es.last().rows)
    }
}

/// Every cell of the data is one that the format can write.
pub open spec fn data_writable(ascii: bool, es: Seq<ElementDataModel>) -> bool {
    forall|i: int, j: int|
        0 <= i < es.len() && 0 <= j < es[i].rows.len() ==> row_writable(ascii, #[trigger] field_values(es[i].rows[j]))
}

/// What writing data gives: the header that its shape calls for (the element types
/// of lists by their sized names), then its rows;
/// or why it cannot be written.
pub open spec fn write_file(o: OptionsModel, es: Seq<ElementDataModel>) -> Result<Seq<u8>, SerializeCause> {
    match collected_header(o, es) {
        Err(x) => Err(x),
        Ok(h) => match body_error(es) {
            Some(x) => Err(x),
            None => Ok(header_text_with(h, true) + body_bytes(o.format, es)),
        },
    }
}

pub struct SeqSerializerModel {
    pub format: PlyFormat,
    pub count: nat,
    pub current: nat,
    pub out: Seq<u8>,
}

/// Writes the rows of one element, which announced how many it has.
pub struct ElementSeqSerializer {
    format: PlyFormat,
    count: usize,
    current: usize,
    out: Vec<u8>,
}

impl View for ElementSeqSerializer {
    type V = SeqSerializerModel;

    closed spec fn view(&self) -> SeqSerializerModel {
        SeqSerializerModel {
            format: self.format,
            count: self.count as nat,
            current: self.current as nat,
            out: self.out@,
        }
    }
}

impl ElementSeqSerializer {
    /// A writer of `count` rows.
    pub fn new(format: PlyFormat, count: usize) -> (r: ElementSeqSerializer)
        ensures
            r@ == (SeqSerializerModel { format, count: count as nat, current: 0, out: seq![] }),
    {
        let r = ElementSeqSerializer { format, count, current: 0, out: Vec::new() };
        assert(r@.out =~= Seq::<u8>::empty());
        r
    }

    /// Writes the next row: an error once all announced rows are written, or when
    /// the row cannot be written; then nothing is written.
    pub fn serialize_element(&mut self, row: &Vec<Field>) -> (r: Result<(), SerializeError>)
        requires
            row_writable(old(self)@.format == PlyFormat::Ascii, field_values(field_models(row@))),
        ensures
            ({
                let m = old(self)@;
                if m.current >= m.count {
                    r is Err && r->Err_0 == SerializeError(SerializeCause::TooManyRows) && final(self)@ == m
                } else {
                    match row_error(field_values(field_models(row@))) {
                        Some(x) => r is Err && r->Err_0 == SerializeError(x) && final(self)@ == m,
                        None => r is Ok && final(self)@ == (SeqSerializerModel {
                            current: m.current + 1,
                            out: m.out + encode_row(m.format, field_values(field_models(row@))),
                            ..m
                        }),
                    }
                }
            }),
    {
        if self.current >= self.count {
            return Err(SerializeError(SerializeCause::TooManyRows));
        }
        match write_row(self.format, row, &mut self.out) {
            Ok(()) => {
                self.current = self.current + 1;
                Ok(())
            },
            Err(x) => Err(SerializeError(x)),
        }
    }

    /// Ends the element: an error unless all announced rows were written; else the
    /// bytes of the rows.
    pub fn end(self) -> (r: Result<Vec<u8>, SerializeError>)
        ensures
            if self@.current != self@.count {
                r is Err && r->Err_0 == SerializeError(SerializeCause::RowCountMismatch)
            } else {
                r matches Ok(b) && b@ == self@.out
            },
    {
        if self.current != self.count {
            return Err(SerializeError(SerializeCause::RowCountMismatch));
        }
        Ok(self.out)
    }
}

/// Writes the rows of the elements of data, element after element.
pub struct PlyFileSerializer {
    format: PlyFormat,
}

impl PlyFileSerializer {
    pub fn new(format: PlyFormat) -> (r: PlyFileSerializer)
        ensures
            r.format() == format,
    {
        PlyFileSerializer { format }
    }

    pub closed spec fn format(&self) -> PlyFormat {
        self.format
    }

    /// The rows of all elements, or why they cannot be written.
    pub fn serialize(&self, data: &Vec<ElementData>) -> (r: Result<Vec<u8>, SerializeError>)
        requires
            data_writable(self.format() == PlyFormat::Ascii, element_data_models(data@)),
        ensures
            match body_error(element_data_models(data@)) {
                Some(x) => r is Err && r->Err_0 == SerializeError(x),
                None => r matches Ok(b) && b@ == body_bytes(self.format(), element_data_models(data@)),
            },
    {
        let ghost es = element_data_models(data@);
        let mut out: Vec<u8> = Vec::new();
        let mut i: usize = 0;
        assert(es.take(0) =~= Seq::<ElementDataModel>::empty());
        while i < data.len()
            invariant
                i <= data@.len(),
                es == element_data_models(data@),
                data_writable(self.format == PlyFormat::Ascii, es),
                body_error(es.take(i as int)) is None,
                out@ == body_bytes(self.format, es.take(i as int)),
            decreases data@.len() - i,
        {
            proof {
                assert(es.take(i + 1).drop_last() =~= es.take(i as int));
                assert(es.take(i + 1).last() == data@[i as int]@);
            }
            let rows = &data[i].rows;
            let mut ser = ElementSeqSerializer::new(self.format, rows.len());
            let mut j: usize = 0;
            let ghost rs = field_rows_models(rows@);
            assert(rs == es[i as int].rows);
            assert(rs.take(0) =~= Seq::<Seq<FieldModel>>::empty());
            while j < rows.len()
                invariant
                    j <= rows@.len(),
                    rs == field_rows_models(rows@),
                    rs == es[i as int].rows,
                    0 <= i < es.len(),
                    i < data@.len(),
                    es == element_data_models(data@),
                    body_error(es.take(i as int)) is None,
                    out@ == body_bytes(self.format, es.take(i as int)),
                    data_writable(self.format == PlyFormat::Ascii, es),
                    ser@.format == self.format,
                    ser@.count == rows@.len(),
                    ser@.current == j,
                    rows_error(rs.take(j as int)) is None,
                    ser@.out == rows_bytes(self.format, rs.take(j as int)),
                decreases rows@.len() - j,
            {
                proof {
                    assert(rs.take(j + 1).drop_last() =~= rs.take(j as int));
                    assert(rs.take(j + 1).last() == field_models(rows@[j as int]@));
                    assert(rs[j as int] == field_models(rows@[j as int]@));
                    assert(row_writable(self.format == PlyFormat::Ascii, field_values(es[i as int].rows[j as int])));
                }
                match ser.serialize_element(&rows[j]) {
                    Ok(()) => {},
                    Err(e) => {
                        proof {
                            lemma_rows_error_at(rs, j as int);
                            lemma_body_error_at(es, i as int);
                        }
                        return Err(e);
                    },
                }
                j = j + 1;
            }
            assert(rs.take(rows@.len() as int) =~= rs);
            let bytes = match ser.end() {
                Ok(b) => b,
                Err(e) => {
                    return Err(e);
                },
            };
            crate::text::append_bytes(&mut out, bytes.as_slice());
            i = i + 1;
        }
        assert(es.take(data@.len() as int) =~= es);
        Ok(out)
    }
}

/// An error in the `j`-th row is the error of all rows, when the rows before it have none.
proof fn lemma_rows_error_at(rows: Seq<Seq<FieldModel>>, j: int)
    requires
        0 <= j < rows.len(),
        rows_error(rows.take(j)) is None,
        row_error(field_values(rows[j])) is Some,
    ensures
        rows_error(rows) == row_error(field_values(rows[j])),
    decreases rows.len(),
{
    if j == rows.len() - 1 {
        assert(rows.drop_last() =~= rows.take(j));
    } else {
        assert(rows.drop_last().take(j) =~= rows.take(j));
        assert(rows.drop_last()[j] == rows[j]);
        lemma_rows_error_at(rows.drop_last(), j);
    }
}

/// An error in the `i`-th element is the error of the body, when the elements
/// before it have none.
proof fn lemma_body_error_at(es: Seq<ElementDataModel>, i: int)
    requires
        0 <= i < es.len(),
        body_error(es.take(i)) is None,
        rows_error(es[i].rows) is Some,
    ensures
        body_error(es) == rows_error(es[i].rows),
    decreases es.len(),
{
    if i == es.len() - 1 {
        assert(es.drop_last() =~= es.take(i));
    } else {
        assert(es.drop_last().take(i) =~= es.take(i));
        assert(es.drop_last()[i] == es[i]);
        lemma_body_error_at(es.drop_last(), i);
    }
}

// ---------------------------------------------------------------------------
// Data in the ASCII format is ASCII text.
/// Every byte is an ASCII character.
pub open spec fn ascii_bytes(s: Seq<u8>) -> bool {
    forall|i: int| 0 <= i < s.len() ==> #[trigger] s[i] < 128
}

proof fn lemma_ascii_cat(a: Seq<u8>, b: Seq<u8>)
    requires
        ascii_bytes(a),
        ascii_bytes(b),
    ensures
        ascii_bytes(a + b),
{
    assert forall|i: int| 0 <= i < (a + b).len() implies #[trigger] (a + b)[i] < 128 by {
        if i < a.len() {
            assert((a + b)[i] == a[i]);
        } else {
            assert((a + b)[i] == b[i - a.len()]);
        }
    }
}

proof fn lemma_cell_ascii(c: crate::value::CellModel)
    requires
        c matches crate::value::CellModel::Text(_, t) ==> ascii_bytes(t),
    ensures
        ascii_bytes(crate::row::encode_cell(PlyFormat::Ascii, c)),
{
    assert(ascii_bytes(seq![32u8]));
    match c {
        crate::value::CellModel::Num(v) => {
            let n = crate::value::int_value(v);
            if n < 0 {
                crate::text::lemma_decimal((-n) as nat);
                assert(ascii_bytes(decimal_of((-n) as nat)));
                assert(ascii_bytes(seq![45u8]));
                lemma_ascii_cat(seq![45u8], decimal_of((-n) as nat));
            } else {
                crate::text::lemma_decimal(n as nat);
                assert(ascii_bytes(decimal_of(n as nat)));
            }
            lemma_ascii_cat(crate::ascii::int_text(v), seq![32u8]);
        },
        crate::value::CellModel::Text(_, t) => {
            lemma_ascii_cat(t, seq![32u8]);
        },
    }
}

spec fn decimal_of(n: nat) -> Seq<u8> {
    crate::text::decimal(n)
}

proof fn lemma_cells_ascii(cs: Seq<crate::value::CellModel>)
    requires
        forall|i: int| 0 <= i < cs.len() ==> crate::value::cell_writable(true, #[trigger] cs[i]),
    ensures
        ascii_bytes(crate::row::encode_cells(PlyFormat::Ascii, cs)),
    decreases cs.len(),
{
    if cs.len() > 0 {
        let init = cs.drop_last();
        assert forall|i: int| 0 <= i < init.len() implies crate::value::cell_writable(true, #[trigger] init[i]) by {
            assert(init[i] == cs[i]);
        }
        lemma_cells_ascii(init);
        assert(cs.last() == cs[cs.len() - 1]);
        assert(crate::value::cell_writable(true, cs.last()));
        lemma_cell_ascii(cs.last());
        lemma_ascii_cat(crate::row::encode_cells(PlyFormat::Ascii, init), crate::row::encode_cell(PlyFormat::Ascii, cs.last()));
    }
}

proof fn lemma_values_ascii(vs: Seq<ValueModel>)
    requires
        crate::value::row_writable(true, vs),
    ensures
        ascii_bytes(crate::row::encode_values(PlyFormat::Ascii, vs)),
    decreases vs.len(),
{
    if vs.len() > 0 {
        let init = vs.drop_last();
        assert forall|i: int| 0 <= i < init.len() implies crate::value::value_writable(true, #[trigger] init[i]) by {
            assert(init[i] == vs[i]);
        }
        lemma_values_ascii(init);
        let v = vs.last();
        assert(v == vs[vs.len() - 1]);
        assert(crate::value::value_writable(true, v));
        match v {
            ValueModel::Scalar(c) => {
                lemma_cell_ascii(c);
            },
            ValueModel::List(ct, cs) => {
                let count = crate::value::CellModel::Num(crate::value::count_scalar(ct, cs.len() as usize));
                lemma_cell_ascii(count);
                lemma_cells_ascii(cs);
                lemma_ascii_cat(crate::row::encode_cell(PlyFormat::Ascii, count), crate::row::encode_cells(PlyFormat::Ascii, cs));
            },
        }
        lemma_ascii_cat(crate::row::encode_values(PlyFormat::Ascii, init), crate::row::encode_value(PlyFormat::Ascii, v));
    }
}

proof fn lemma_rows_ascii(rows: Seq<Seq<FieldModel>>)
    requires
        forall|j: int| 0 <= j < rows.len() ==> crate::value::row_writable(true, #[trigger] field_values(rows[j])),
    ensures
        ascii_bytes(rows_bytes(PlyFormat::Ascii, rows)),
    decreases rows.len(),
{
    if rows.len() > 0 {
        let init = rows.drop_last();
        assert forall|j: int| 0 <= j < init.len() implies crate::value::row_writable(true, #[trigger] field_values(init[j])) by {
            assert(init[j] == rows[j]);
        }
        lemma_rows_ascii(init);
        assert(rows.last() == rows[rows.len() - 1]);
        let vs = field_values(rows.last());
        lemma_values_ascii(vs);
        assert(ascii_bytes(seq![10u8]));
        lemma_ascii_cat(crate::row::encode_values(PlyFormat::Ascii, vs), seq![10u8]);
        lemma_ascii_cat(rows_bytes(PlyFormat::Ascii, init), crate::row::encode_row(PlyFormat::Ascii, vs));
    }
}

/// The rows of data that the ASCII format can write are ASCII text.
proof fn lemma_body_ascii(es: Seq<ElementDataModel>)
    requires
        data_writable(true, es),
    ensures
        ascii_bytes(body_bytes(PlyFormat::Ascii, es)),
    decreases es.len(),
{
    if es.len() > 0 {
        let init = es.drop_last();
        assert forall|i: int, j: int|
            0 <= i < init.len() && 0 <= j < init[i].rows.len() implies crate::value::row_writable(
            true,
            #[trigger] field_values(init[i].rows[j]),
        ) by {
            assert(init[i] == es[i]);
        }
        lemma_body_ascii(init);
        let last = es.last();
        assert(last == es[es.len() - 1]);
        assert forall|j: int| 0 <= j < last.rows.len() implies crate::value::row_writable(
            true,
            #[trigger] field_values(last.rows[j]),
        ) by {
            assert(crate::value::row_writable(true, field_values(es[es.len() - 1].rows[j])));
        }
        lemma_rows_ascii(last.rows);
        lemma_ascii_cat(body_bytes(PlyFormat::Ascii, init), rows_bytes(PlyFormat::Ascii, last.rows));
    }
}

/// Whether the format (ASCII or not) can write every cell of the data: the
/// condition that [`to_bytes`] and [`to_string`] require.
pub fn data_is_writable(ascii: bool, data: &Vec<ElementData>) -> (r: bool)
    ensures
        r == data_writable(ascii, element_data_models(data@)),
{
    let ghost es = element_data_models(data@);
    let mut i: usize = 0;
    while i < data.len()
        invariant
            i <= data@.len(),
            es == element_data_models(data@),
            forall|a: int, b: int|
                0 <= a < i && 0 <= b < es[a].rows.len() ==> crate::value::row_writable(
                    ascii,
                    #[trigger] field_values(es[a].rows[b]),
                ),
        decreases data@.len() - i,
    {
        let e = &data[i];
        assert(es[i as int] == e@);
        let mut j: usize = 0;
        while j < e.rows.len()
            invariant
                i < data@.len(),
                e == &data@[i as int],
                es == element_data_models(data@),
                es[i as int] == e@,
                j <= e.rows@.len(),
                forall|a: int, b: int|
                    0 <= a < i && 0 <= b < es[a].rows.len() ==> crate::value::row_writable(
                        ascii,
                        #[trigger] field_values(es[a].rows[b]),
                    ),
                forall|b: int|
                    0 <= b < j ==> crate::value::row_writable(ascii, #[trigger] field_values(es[i as int].rows[b])),
            decreases e.rows@.len() - j,
        {
            assert(es[i as int].rows[j as int] == field_models(e.rows@[j as int]@));
            if !crate::value::fields_are_writable(ascii, &e.rows[j]) {
                return false;
            }
            j = j + 1;
        }
        i = i + 1;
    }
    true
}

/// Writes data: the header that its shape calls for, then its rows; see [`write_file`].
/// A list with a floating-point count type is refused (`FloatListCount`).
pub fn to_bytes(data: &Vec<ElementData>, options: SerializeOptions) -> (r: Result<Vec<u8>, SerializeError>)
    requires
        data_writable(options@.format == PlyFormat::Ascii, element_data_models(data@)),
    ensures
        match write_file(options@, element_data_models(data@)) {
            Ok(b) => r matches Ok(bb) && bb@ == b,
            Err(x) => r is Err && r->Err_0 == SerializeError(x),
        },
        options@.format == PlyFormat::Ascii ==> (r matches Ok(bb) ==> vstd::utf8::valid_utf8(bb@)),
{
    let format = options.format();
    let collector = HeaderCollector::from_options(options);
    let mut out = match collector.write_header(data) {
        Ok(b) => b,
        Err(e) => {
            return Err(e);
        },
    };
    let body = match PlyFileSerializer::new(format).serialize(data) {
        Ok(b) => b,
        Err(e) => {
            return Err(e);
        },
    };
    proof {
        if format == PlyFormat::Ascii {
            lemma_body_ascii(element_data_models(data@));
            lemma_ascii_valid_utf8(body@);
            vstd::utf8::valid_utf8_concat(out@, body@);
        }
    }
    crate::text::append_bytes(&mut out, body.as_slice());
    Ok(out)
}

/// Writes data in the ASCII format as a string; binary data is refused.
pub fn to_string(data: &Vec<ElementData>, options: SerializeOptions) -> (r: Result<String, SerializeError>)
    requires
        data_writable(options@.format == PlyFormat::Ascii, element_data_models(data@)),
    ensures
        options@.format != PlyFormat::Ascii ==> r is Err && r->Err_0 == SerializeError(SerializeCause::NotAscii),
        options@.format == PlyFormat::Ascii ==> match write_file(options@, element_data_models(data@)) {
            Ok(b) => r matches Ok(s) && str_bytes(s) == b,
            Err(x) => r is Err && r->Err_0 == SerializeError(x),
        },
{
    match options.format() {
        PlyFormat::Ascii => {},
        _ => {
            return Err(SerializeError(SerializeCause::NotAscii));
        },
    }
    let bytes = match to_bytes(data, options) {
        Ok(b) => b,
        Err(e) => {
            return Err(e);
        },
    };
    Ok(text_of(bytes.as_slice()))
}

} // verus!
