//! The words of the PLY header, as bytes.

use vstd::prelude::*;

verus! {

/// The bytes of `char`.
pub open spec fn kw_char() -> Seq<u8> {
    seq![99u8, 104, 97, 114]
}

pub fn kw_char_bytes() -> (r: Vec<u8>)
    ensures
        r@ == kw_char(),
{
    let r: Vec<u8> = vec![99u8, 104, 97, 114];
    assert(r@ =~= kw_char());
    r
}

/// The bytes of `int8`.
pub open spec fn kw_int8() -> Seq<u8> {
    seq![105u8, 110, 116, 56]
}

pub fn kw_int8_bytes() -> (r: Vec<u8>)
    ensures
        r@ == kw_int8(),
{
    let r: Vec<u8> = vec![105u8, 110, 116, 56];
    assert(r@ =~= kw_int8());
    r
}

/// The bytes of `uchar`.
pub open spec fn kw_uchar() -> Seq<u8> {
    seq![117u8, 99, 104, 97, 114]
}

pub fn kw_uchar_bytes() -> (r: Vec<u8>)
    ensures
        r@ == kw_uchar(),
{
    let r: Vec<u8> = vec![117u8, 99, 104, 97, 114];
    assert(r@ =~= kw_uchar());
    r
}

/// The bytes of `uint8`.
pub open spec fn kw_uint8() -> Seq<u8> {
    seq![117u8, 105, 110, 116, 56]
}

pub fn kw_uint8_bytes() -> (r: Vec<u8>)
    ensures
        r@ == kw_uint8(),
{
    let r: Vec<u8> = vec![117u8, 105, 110, 116, 56];
    assert(r@ =~= kw_uint8());
    r
}

/// The bytes of `short`.
pub open spec fn kw_short() -> Seq<u8> {
    seq![115u8, 104, 111, 114, 116]
}

pub fn kw_short_bytes() -> (r: Vec<u8>)
    ensures
        r@ == kw_short(),
{
    let r: Vec<u8> = vec![115u8, 104, 111, 114, 116];
    assert(r@ =~= kw_short());
    r
}

/// The bytes of `int16`.
pub open spec fn kw_int16() -> Seq<u8> {
    seq![105u8, 110, 116, 49, 54]
}

pub fn kw_int16_bytes() -> (r: Vec<u8>)
    ensures
        r@ == kw_int16(),
{
    let r: Vec<u8> = vec![105u8, 110, 116, 49, 54];
    assert(r@ =~= kw_int16());
    r
}

/// The bytes of `ushort`.
pub open spec fn kw_ushort() -> Seq<u8> {
    seq![117u8, 115, 104, 111, 114, 116]
}

pub fn kw_ushort_bytes() -> (r: Vec<u8>)
    ensures
        r@ == kw_ushort(),
{
    let r: Vec<u8> = vec![117u8, 115, 104, 111, 114, 116];
    assert(r@ =~= kw_ushort());
    r
}

/// The bytes of `uint16`.
pub open spec fn kw_uint16() -> Seq<u8> {
    seq![117u8, 105, 110, 116, 49, 54]
}

pub fn kw_uint16_bytes() -> (r: Vec<u8>)
    ensures
        r@ == kw_uint16(),
{
    let r: Vec<u8> = vec![117u8, 105, 110, 116, 49, 54];
    assert(r@ =~= kw_uint16());
    r
}

/// The bytes of `int`.
pub open spec fn kw_int() -> Seq<u8> {
    seq![105u8, 110, 116]
}

pub fn kw_int_bytes() -> (r: Vec<u8>)
    ensures
        r@ == kw_int(),
{
    let r: Vec<u8> = vec![105u8, 110, 116];
    assert(r@ =~= kw_int());
    r
}

/// The bytes of `int32`.
pub open spec fn kw_int32() -> Seq<u8> {
    seq![105u8, 110, 116, 51, 50]
}

pub fn kw_int32_bytes() -> (r: Vec<u8>)
    ensures
        r@ == kw_int32(),
{
    let r: Vec<u8> = vec![105u8, 110, 116, 51, 50];
    assert(r@ =~= kw_int32());
    r
}

/// The bytes of `uint`.
pub open spec fn kw_uint() -> Seq<u8> {
    seq![117u8, 105, 110, 116]
}

pub fn kw_uint_bytes() -> (r: Vec<u8>)
    ensures
        r@ == kw_uint(),
{
    let r: Vec<u8> = vec![117u8, 105, 110, 116];
    assert(r@ =~= kw_uint());
    r
}

/// The bytes of `uint32`.
pub open spec fn kw_uint32() -> Seq<u8> {
    seq![117u8, 105, 110, 116, 51, 50]
}

pub fn kw_uint32_bytes() -> (r: Vec<u8>)
    ensures
        r@ == kw_uint32(),
{
    let r: Vec<u8> = vec![117u8, 105, 110, 116, 51, 50];
    assert(r@ =~= kw_uint32());
    r
}

/// The bytes of `float`.
pub open spec fn kw_float() -> Seq<u8> {
    seq![102u8, 108, 111, 97, 116]
}

pub fn kw_float_bytes() -> (r: Vec<u8>)
    ensures
        r@ == kw_float(),
{
    let r: Vec<u8> = vec![102u8, 108, 111, 97, 116];
    assert(r@ =~= kw_float());
    r
}

/// The bytes of `float32`.
pub open spec fn kw_float32() -> Seq<u8> {
    seq![102u8, 108, 111, 97, 116, 51, 50]
}

pub fn kw_float32_bytes() -> (r: Vec<u8>)
    ensures
        r@ == kw_float32(),
{
    let r: Vec<u8> = vec![102u8, 108, 111, 97, 116, 51, 50];
    assert(r@ =~= kw_float32());
    r
}

/// The bytes of `double`.
pub open spec fn kw_double() -> Seq<u8> {
    seq![100u8, 111, 117, 98, 108, 101]
}

pub fn kw_double_bytes() -> (r: Vec<u8>)
    ensures
        r@ == kw_double(),
{
    let r: Vec<u8> = vec![100u8, 111, 117, 98, 108, 101];
    assert(r@ =~= kw_double());
    r
}

/// The bytes of `float64`.
pub open spec fn kw_float64() -> Seq<u8> {
    seq![102u8, 108, 111, 97, 116, 54, 52]
}

pub fn kw_float64_bytes() -> (r: Vec<u8>)
    ensures
        r@ == kw_float64(),
{
    let r: Vec<u8> = vec![102u8, 108, 111, 97, 116, 54, 52];
    assert(r@ =~= kw_float64());
    r
}

/// The bytes of `ascii`.
pub open spec fn kw_ascii() -> Seq<u8> {
    seq![97u8, 115, 99, 105, 105]
}

pub fn kw_ascii_bytes() -> (r: Vec<u8>)
    ensures
        r@ == kw_ascii(),
{
    let r: Vec<u8> = vec![97u8, 115, 99, 105, 105];
    assert(r@ =~= kw_ascii());
    r
}

/// The bytes of `binary_little_endian`.
pub open spec fn kw_binary_little_endian() -> Seq<u8> {
    seq![98u8, 105, 110, 97, 114, 121, 95, 108, 105, 116, 116, 108, 101, 95, 101, 110, 100, 105, 97, 110]
}

pub fn kw_binary_little_endian_bytes() -> (r: Vec<u8>)
    ensures
        r@ == kw_binary_little_endian(),
{
    let r: Vec<u8> = vec![98u8, 105, 110, 97, 114, 121, 95, 108, 105, 116, 116, 108, 101, 95, 101, 110, 100, 105, 97, 110];
    assert(r@ =~= kw_binary_little_endian());
    r
}

/// The bytes of `binary_big_endian`.
pub open spec fn kw_binary_big_endian() -> Seq<u8> {
    seq![98u8, 105, 110, 97, 114, 121, 95, 98, 105, 103, 95, 101, 110, 100, 105, 97, 110]
}

pub fn kw_binary_big_endian_bytes() -> (r: Vec<u8>)
    ensures
        r@ == kw_binary_big_endian(),
{
    let r: Vec<u8> = vec![98u8, 105, 110, 97, 114, 121, 95, 98, 105, 103, 95, 101, 110, 100, 105, 97, 110];
    assert(r@ =~= kw_binary_big_endian());
    r
}

/// The bytes of `ply`.
pub open spec fn kw_ply() -> Seq<u8> {
    seq![112u8, 108, 121]
}

pub fn kw_ply_bytes() -> (r: Vec<u8>)
    ensures
        r@ == kw_ply(),
{
    let r: Vec<u8> = vec![112u8, 108, 121];
    assert(r@ =~= kw_ply());
    r
}

/// The bytes of `format`.
pub open spec fn kw_format() -> Seq<u8> {
    seq![102u8, 111, 114, 109, 97, 116]
}

pub fn kw_format_bytes() -> (r: Vec<u8>)
    ensures
        r@ == kw_format(),
{
    let r: Vec<u8> = vec![102u8, 111, 114, 109, 97, 116];
    assert(r@ =~= kw_format());
    r
}

/// The bytes of `comment`.
pub open spec fn kw_comment() -> Seq<u8> {
    seq![99u8, 111, 109, 109, 101, 110, 116]
}

pub fn kw_comment_bytes() -> (r: Vec<u8>)
    ensures
        r@ == kw_comment(),
{
    let r: Vec<u8> = vec![99u8, 111, 109, 109, 101, 110, 116];
    assert(r@ =~= kw_comment());
    r
}

/// The bytes of `obj_info`.
pub open spec fn kw_obj_info() -> Seq<u8> {
    seq![111u8, 98, 106, 95, 105, 110, 102, 111]
}

pub fn kw_obj_info_bytes() -> (r: Vec<u8>)
    ensures
        r@ == kw_obj_info(),
{
    let r: Vec<u8> = vec![111u8, 98, 106, 95, 105, 110, 102, 111];
    assert(r@ =~= kw_obj_info());
    r
}

/// The bytes of `element`.
pub open spec fn kw_element() -> Seq<u8> {
    seq![101u8, 108, 101, 109, 101, 110, 116]
}

pub fn kw_element_bytes() -> (r: Vec<u8>)
    ensures
        r@ == kw_element(),
{
    let r: Vec<u8> = vec![101u8, 108, 101, 109, 101, 110, 116];
    assert(r@ =~= kw_element());
    r
}

/// The bytes of `property`.
pub open spec fn kw_property() -> Seq<u8> {
    seq![112u8, 114, 111, 112, 101, 114, 116, 121]
}

pub fn kw_property_bytes() -> (r: Vec<u8>)
    ensures
        r@ == kw_property(),
{
    let r: Vec<u8> = vec![112u8, 114, 111, 112, 101, 114, 116, 121];
    assert(r@ =~= kw_property());
    r
}

/// The bytes of `list`.
pub open spec fn kw_list() -> Seq<u8> {
    seq![108u8, 105, 115, 116]
}

pub fn kw_list_bytes() -> (r: Vec<u8>)
    ensures
        r@ == kw_list(),
{
    let r: Vec<u8> = vec![108u8, 105, 115, 116];
    assert(r@ =~= kw_list());
    r
}

/// The bytes of `end_header\n`.
pub open spec fn kw_end_header() -> Seq<u8> {
    seq![101u8, 110, 100, 95, 104, 101, 97, 100, 101, 114, 10]
}

pub fn kw_end_header_bytes() -> (r: Vec<u8>)
    ensures
        r@ == kw_end_header(),
{
    let r: Vec<u8> = vec![101u8, 110, 100, 95, 104, 101, 97, 100, 101, 114, 10];
    assert(r@ =~= kw_end_header());
    r
}

/// The bytes of `1.0`, the version that is written.
pub open spec fn kw_version() -> Seq<u8> {
    seq![49u8, 46, 48]
}

pub fn kw_version_bytes() -> (r: Vec<u8>)
    ensures
        r@ == kw_version(),
{
    let r: Vec<u8> = vec![49u8, 46, 48];
    assert(r@ =~= kw_version());
    r
}

} // verus!
