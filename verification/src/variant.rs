//! Property values as `rbx_types` holds them: what a [`Variant`] contains, as
//! plain values, and how one is made from plain values again.

use rbx_types::{Attributes, Content, ContentType, PhysicalProperties, Ref, Variant};
use vstd::prelude::*;

use crate::keyed;
use crate::text;
use crate::text::Text;

verus! {

#[verifier::external_type_specification]
#[verifier::external_body]
pub struct ExVariant(rbx_types::Variant);

/// The kinds whose components are integers.
#[derive(Clone, Copy, PartialEq, Eq, Structural)]
pub enum IntegerKind {
    Int32,
    Int64,
    Enum,
    Vector2int16,
    Vector3int16,
    Color3uint8,
    Region3int16,
    SecurityCapabilities,
}

/// The kinds whose components are floating-point numbers.
#[derive(Clone, Copy, PartialEq, Eq, Structural)]
pub enum NumberKind {
    Vector2,
    Vector3,
    CFrame,
    OptionalCFrame,
    Color3,
    NumberRange,
    Rect,
    Region3,
    Ray,
    PhysicalProperties,
}

/// The kinds that are a list of keypoints.
#[derive(Clone, Copy, PartialEq, Eq, Structural)]
pub enum SequenceKind {
    Number,
    Color,
}

/// The kinds that are a run of bytes.
#[derive(Clone, Copy, PartialEq, Eq, Structural)]
pub enum BytesKind {
    BinaryString,
    SharedString,
    NetAssetRef,
}

/// What a variant holds. A referent is its number, nil being zero; a unique id
/// is the number that its thirty-two hexadecimal digits spell, nil being zero.
/// A floating-point number is the shortest decimal that reads back as it.
pub enum Shape {
    Ref(u128),
    Object(u128),
    UniqueId(u128),
    Attributes(Vec<(String, Variant)>),
    Uri(String),
    NoContent,
    UnknownContent,
    Text(String),
    Bool(bool),
    Float32(u32, String),
    Float64(u64, String),
    Tags(Vec<String>),
    Bytes(BytesKind, Vec<u8>),
    Integers(IntegerKind, Vec<i128>),
    Numbers(NumberKind, Vec<String>),
    Dims(Vec<(String, i32)>),
    Keypoints(SequenceKind, Vec<Vec<String>>),
    Other,
}

/// The mathematical counterpart of [`Shape`].
pub ghost enum ShapeModel {
    Ref(u128),
    Object(u128),
    UniqueId(u128),
    Attributes(Seq<(Text, Variant)>),
    Uri(Text),
    NoContent,
    UnknownContent,
    Text(Text),
    Bool(bool),
    Float32(u32, Text),
    Float64(u64, Text),
    Tags(Seq<Text>),
    Bytes(BytesKind, Seq<u8>),
    Integers(IntegerKind, Seq<i128>),
    Numbers(NumberKind, Seq<Text>),
    Dims(Seq<(Text, i32)>),
    Keypoints(SequenceKind, Seq<Seq<Text>>),
    Other,
}

impl View for Shape {
    type V = ShapeModel;

    open spec fn view(&self) -> ShapeModel {
        match *self {
            Shape::Ref(r) => ShapeModel::Ref(r),
            Shape::Object(r) => ShapeModel::Object(r),
            Shape::UniqueId(u) => ShapeModel::UniqueId(u),
            Shape::Attributes(a) => ShapeModel::Attributes(
                a@.map_values(|p: (String, Variant)| (p.0@, p.1)),
            ),
            Shape::Uri(s) => ShapeModel::Uri(s@),
            Shape::NoContent => ShapeModel::NoContent,
            Shape::UnknownContent => ShapeModel::UnknownContent,
            Shape::Text(s) => ShapeModel::Text(s@),
            Shape::Bool(b) => ShapeModel::Bool(b),
            Shape::Float32(bits, s) => ShapeModel::Float32(bits, s@),
            Shape::Float64(bits, s) => ShapeModel::Float64(bits, s@),
            Shape::Tags(t) => ShapeModel::Tags(text::strings_view(t@)),
            Shape::Bytes(kind, b) => ShapeModel::Bytes(kind, b@),
            Shape::Integers(kind, n) => ShapeModel::Integers(kind, n@),
            Shape::Numbers(kind, n) => ShapeModel::Numbers(kind, text::strings_view(n@)),
            Shape::Dims(d) => ShapeModel::Dims(d@.map_values(|p: (String, i32)| (p.0@, p.1))),
            Shape::Keypoints(kind, k) => ShapeModel::Keypoints(
                kind,
                k@.map_values(|p: Vec<String>| text::strings_view(p@)),
            ),
            Shape::Other => ShapeModel::Other,
        }
    }
}

/// What a variant holds, as plain values.
pub uninterp spec fn shape(v: Variant) -> ShapeModel;

/// How deep attribute maps nest in a variant.
pub uninterp spec fn nesting(v: Variant) -> nat;

/// Whether `==` of `Variant` holds of the two.
pub uninterp spec fn variants_equal(a: Variant, b: Variant) -> bool;

/// The `Debug` text of a variant.
pub uninterp spec fn debug_text(v: Variant) -> Seq<char>;

pub open spec fn is_reference_shape(s: ShapeModel) -> bool {
    s is Ref || s is Object || s is UniqueId
}

pub open spec fn is_content_shape(s: ShapeModel) -> bool {
    s is Uri || s is NoContent || s is UnknownContent
}

pub open spec fn is_text_shape(s: ShapeModel) -> bool {
    s is Text || s is Bool || s is Tags || s is Bytes
}

pub open spec fn is_integer_shape(s: ShapeModel, wide: bool) -> bool {
    s matches ShapeModel::Integers(kind, _) && (wide <==> kind is Region3int16 || kind is Vector3int16 || kind is Color3uint8)
}

pub open spec fn number_group(kind: NumberKind) -> int {
    match kind {
        NumberKind::Vector2 => 0,
        NumberKind::Vector3 => 0,
        NumberKind::NumberRange => 0,
        NumberKind::Color3 => 0,
        NumberKind::Rect => 1,
        NumberKind::Ray => 1,
        NumberKind::Region3 => 2,
        NumberKind::PhysicalProperties => 2,
        NumberKind::CFrame => 3,
        NumberKind::OptionalCFrame => 4,
    }
}

pub open spec fn is_number_shape(s: ShapeModel, group: int) -> bool {
    s matches ShapeModel::Numbers(kind, _) && number_group(kind) == group
}

/// A clone holds what was cloned.
///
/// Trusted: `Clone` of `rbx_types::Variant` is derived.
pub assume_specification[ <Variant as Clone>::clone ](v: &Variant) -> (res: Variant)
    ensures
        res == *v,
;

/// Compares two variants with their own `==`.
///
/// Trusted: `PartialEq` of `rbx_types::Variant` is derived, and a shared string
/// in it compares by the hash of its bytes. So it depends on the two values
/// alone and does not depend on their order. It is not reflexive: a value that
/// holds a not-a-number differs from itself.
#[verifier::external_body]
pub(crate) fn same_variant(a: &Variant, b: &Variant) -> (res: bool)
    ensures
        res == variants_equal(*a, *b),
        res == variants_equal(*b, *a),
{
    a == b
}

/// Reads a referent, an object-valued content or a unique id.
///
/// Trusted: the `Display` texts of `rbx_types::Ref` and `rbx_types::UniqueId`
/// are thirty-two hexadecimal digits, nil being all zeros, and determine the
/// value.
#[verifier::external_body]
fn reference_shape(v: &Variant) -> (res: Option<Shape>)
    ensures
        match res {
            Some(s) => is_reference_shape(shape(*v)) && s@ == shape(*v),
            None => !is_reference_shape(shape(*v)),
        },
{
    match v {
        Variant::Ref(r) => Some(Shape::Ref(u128::from_str_radix(&r.to_string(), 16).unwrap())),
        Variant::UniqueId(u) => Some(Shape::UniqueId(u128::from_str_radix(&u.to_string(), 16).unwrap())),
        Variant::Content(c) => match c.value() {
            ContentType::Object(r) => Some(Shape::Object(u128::from_str_radix(&r.to_string(), 16).unwrap())),
            _ => None,
        },
        _ => None,
    }
}

/// Reads an attribute map, in the order of its names.
///
/// Trusted: `rbx_types::Attributes` iterates over a `BTreeMap` keyed by
/// `String`: ascending names, each once. A value that it holds nests less deep
/// than the map does.
#[verifier::external_body]
fn attribute_shape(v: &Variant) -> (res: Option<Shape>)
    ensures
        match res {
            Some(s) => s@ == shape(*v) && (s matches Shape::Attributes(list) && {
                &&& keyed::sorted(shape(*v)->Attributes_0)
                &&& forall|i: int|
                    0 <= i < list@.len() ==> nesting((#[trigger] list@[i]).1) < nesting(*v)
            }),
            None => shape(*v) !is Attributes,
        },
{
    match v {
        Variant::Attributes(a) => Some(Shape::Attributes(a.iter().map(|(k, x)| (k.clone(), x.clone())).collect())),
        _ => None,
    }
}

/// Reads a content that is no object.
///
/// Trusted: `rbx_types::Content::value` tells a content's kind. A kind other
/// than object, URI and none is reported as unknown.
#[verifier::external_body]
fn content_shape(v: &Variant) -> (res: Option<Shape>)
    ensures
        match res {
            Some(s) => is_content_shape(shape(*v)) && s@ == shape(*v),
            None => !is_content_shape(shape(*v)),
        },
{
    match v {
        Variant::Content(c) => match c.value() {
            ContentType::Object(_) => None,
            ContentType::Uri(uri) => Some(Shape::Uri(uri.clone())),
            ContentType::None => Some(Shape::NoContent),
            _ => Some(Shape::UnknownContent),
        },
        _ => None,
    }
}

/// Reads a single floating-point number.
///
/// Trusted: the bits are those of `to_bits`, the text is std's `Debug` text.
#[verifier::external_body]
fn float_shape(v: &Variant) -> (res: Option<Shape>)
    ensures
        match res {
            Some(s) => (shape(*v) is Float32 || shape(*v) is Float64) && s@ == shape(*v),
            None => !(shape(*v) is Float32 || shape(*v) is Float64),
        },
{
    match v {
        Variant::Float32(x) => Some(Shape::Float32(x.to_bits(), format!("{x:?}"))),
        Variant::Float64(x) => Some(Shape::Float64(x.to_bits(), format!("{x:?}"))),
        _ => None,
    }
}

/// Reads a string, a boolean, a list of tags or a run of bytes.
///
/// Trusted: the accessors of the `rbx_types` values hand out what they hold.
#[verifier::external_body]
fn text_shape(v: &Variant) -> (res: Option<Shape>)
    ensures
        match res {
            Some(s) => is_text_shape(shape(*v)) && s@ == shape(*v),
            None => !is_text_shape(shape(*v)),
        },
{
    match v {
        Variant::String(s) => Some(Shape::Text(s.clone())),
        Variant::Bool(b) => Some(Shape::Bool(*b)),
        Variant::Tags(t) => Some(Shape::Tags(t.iter().map(str::to_owned).collect())),
        Variant::BinaryString(b) => Some(Shape::Bytes(BytesKind::BinaryString, b.clone().into_vec())),
        Variant::SharedString(b) => Some(Shape::Bytes(BytesKind::SharedString, b.data().to_vec())),
        Variant::NetAssetRef(b) => Some(Shape::Bytes(BytesKind::NetAssetRef, b.data().to_vec())),
        _ => None,
    }
}

/// Reads the shorter integer kinds.
///
/// Trusted: the fields of the `rbx_types` values.
#[verifier::external_body]
fn integer_shape(v: &Variant) -> (res: Option<Shape>)
    ensures
        match res {
            Some(s) => is_integer_shape(shape(*v), false) && s@ == shape(*v),
            None => !is_integer_shape(shape(*v), false),
        },
{
    let (kind, numbers) = match v {
        Variant::Int32(n) => (IntegerKind::Int32, vec![*n as i128]),
        Variant::Int64(n) => (IntegerKind::Int64, vec![*n as i128]),
        Variant::Enum(n) => (IntegerKind::Enum, vec![n.to_u32() as i128]),
        Variant::Vector2int16(p) => (IntegerKind::Vector2int16, vec![p.x as i128, p.y as i128]),
        Variant::SecurityCapabilities(c) => (IntegerKind::SecurityCapabilities, vec![c.bits() as i128]),
        _ => return None,
    };
    Some(Shape::Integers(kind, numbers))
}

/// Reads the integer kinds that hold vectors of three.
///
/// Trusted: the fields of the `rbx_types` values.
#[verifier::external_body]
fn wide_integer_shape(v: &Variant) -> (res: Option<Shape>)
    ensures
        match res {
            Some(s) => is_integer_shape(shape(*v), true) && s@ == shape(*v),
            None => !is_integer_shape(shape(*v), true),
        },
{
    let (kind, numbers) = match v {
        Variant::Color3uint8(c) => (IntegerKind::Color3uint8, vec![c.r as i128, c.g as i128, c.b as i128]),
        Variant::Vector3int16(p) => (IntegerKind::Vector3int16, vec![p.x as i128, p.y as i128, p.z as i128]),
        Variant::Region3int16(r) => {
            let (p, q) = (r.min, r.max);
            (IntegerKind::Region3int16, [p.x, p.y, p.z, q.x, q.y, q.z].map(i128::from).to_vec())
        }
        _ => return None,
    };
    Some(Shape::Integers(kind, numbers))
}

/// Reads the number kinds of two or three components.
///
/// Trusted: the fields of the `rbx_types` values, each by its `Debug` text.
#[verifier::external_body]
fn short_number_shape(v: &Variant) -> (res: Option<Shape>)
    ensures
        match res {
            Some(s) => is_number_shape(shape(*v), 0) && s@ == shape(*v),
            None => !is_number_shape(shape(*v), 0),
        },
{
    let (kind, parts) = match v {
        Variant::Vector2(p) => (NumberKind::Vector2, vec![p.x, p.y]),
        Variant::Vector3(p) => (NumberKind::Vector3, vec![p.x, p.y, p.z]),
        Variant::NumberRange(r) => (NumberKind::NumberRange, vec![r.min, r.max]),
        Variant::Color3(c) => (NumberKind::Color3, vec![c.r, c.g, c.b]),
        _ => return None,
    };
    Some(Shape::Numbers(kind, parts.iter().map(|n| format!("{n:?}")).collect()))
}

/// Reads a rectangle or a ray.
///
/// Trusted: the fields of the `rbx_types` values, each by its `Debug` text.
#[verifier::external_body]
fn rect_shape(v: &Variant) -> (res: Option<Shape>)
    ensures
        match res {
            Some(s) => is_number_shape(shape(*v), 1) && s@ == shape(*v),
            None => !is_number_shape(shape(*v), 1),
        },
{
    match v {
        Variant::Rect(r) => {
            let (p, q) = (r.min, r.max);
            Some(Shape::Numbers(NumberKind::Rect, [p.x, p.y, q.x, q.y].map(|n| format!("{n:?}")).to_vec()))
        }
        Variant::Ray(r) => {
            let (p, q) = (r.origin, r.direction);
            Some(Shape::Numbers(NumberKind::Ray, [p.x, p.y, p.z, q.x, q.y, q.z].map(|n| format!("{n:?}")).to_vec()))
        }
        _ => None,
    }
}

/// Reads a region or physical properties; the default physical properties have
/// no components.
///
/// Trusted: the fields and accessors of the `rbx_types` values, each number by
/// its `Debug` text.
#[verifier::external_body]
fn region_shape(v: &Variant) -> (res: Option<Shape>)
    ensures
        match res {
            Some(s) => is_number_shape(shape(*v), 2) && s@ == shape(*v),
            None => !is_number_shape(shape(*v), 2),
        },
{
    let (kind, parts) = match v {
        Variant::Region3(r) => {
            let (p, q) = (r.min, r.max);
            (NumberKind::Region3, vec![p.x, p.y, p.z, q.x, q.y, q.z])
        }
        Variant::PhysicalProperties(PhysicalProperties::Custom(p)) => (NumberKind::PhysicalProperties, vec![p.density(), p.friction(), p.elasticity(), p.friction_weight(), p.elasticity_weight(), p.acoustic_absorption()]),
        Variant::PhysicalProperties(PhysicalProperties::Default) => (NumberKind::PhysicalProperties, vec![]),
        _ => return None,
    };
    Some(Shape::Numbers(kind, parts.iter().map(|n| format!("{n:?}")).collect()))
}

/// Reads a coordinate frame: the position, then the rows of the orientation.
///
/// Trusted: the fields of `rbx_types::CFrame`, each number by its `Debug` text.
#[verifier::external_body]
fn frame_shape(v: &Variant) -> (res: Option<Shape>)
    ensures
        match res {
            Some(s) => is_number_shape(shape(*v), 3) && s@ == shape(*v),
            None => !is_number_shape(shape(*v), 3),
        },
{
    let Variant::CFrame(c) = v else { return None };
    let (p, x, y, z) = (c.position, c.orientation.x, c.orientation.y, c.orientation.z);
    Some(Shape::Numbers(
        NumberKind::CFrame,
        [p.x, p.y, p.z, x.x, x.y, x.z, y.x, y.y, y.z, z.x, z.y, z.z].map(|n| format!("{n:?}")).to_vec(),
    ))
}

/// Reads an optional coordinate frame; the absent one has no components.
///
/// Trusted: the fields of `rbx_types::CFrame`, each number by its `Debug` text.
#[verifier::external_body]
fn optional_frame_shape(v: &Variant) -> (res: Option<Shape>)
    ensures
        match res {
            Some(s) => is_number_shape(shape(*v), 4) && s@ == shape(*v),
            None => !is_number_shape(shape(*v), 4),
        },
{
    let Variant::OptionalCFrame(f) = v else { return None };
    let Some(c) = f else { return Some(Shape::Numbers(NumberKind::OptionalCFrame, vec![])) };
    let (p, x, y, z) = (c.position, c.orientation.x, c.orientation.y, c.orientation.z);
    Some(Shape::Numbers(
        NumberKind::OptionalCFrame,
        [p.x, p.y, p.z, x.x, x.y, x.z, y.x, y.y, y.z, z.x, z.y, z.z].map(|n| format!("{n:?}")).to_vec(),
    ))
}

/// Reads one or two scale-and-offset pairs.
///
/// Trusted: the fields of `rbx_types::UDim` and `rbx_types::UDim2`, each scale
/// by its `Debug` text.
#[verifier::external_body]
fn dim_shape(v: &Variant) -> (res: Option<Shape>)
    ensures
        match res {
            Some(s) => shape(*v) is Dims && s@ == shape(*v),
            None => shape(*v) !is Dims,
        },
{
    match v {
        Variant::UDim(d) => Some(Shape::Dims(vec![(format!("{:?}", d.scale), d.offset)])),
        Variant::UDim2(d) => Some(Shape::Dims(vec![(format!("{:?}", d.x.scale), d.x.offset), (format!("{:?}", d.y.scale), d.y.offset)])),
        _ => None,
    }
}

/// Reads the keypoints of a sequence, in order.
///
/// Trusted: the fields of the `rbx_types` keypoints, each number by its `Debug`
/// text.
#[verifier::external_body]
fn keypoint_shape(v: &Variant) -> (res: Option<Shape>)
    ensures
        match res {
            Some(s) => shape(*v) is Keypoints && s@ == shape(*v),
            None => shape(*v) !is Keypoints,
        },
{
    match v {
        Variant::NumberSequence(s) => Some(Shape::Keypoints(
            SequenceKind::Number,
            s.keypoints.iter().map(|k| [k.time, k.value, k.envelope].map(|n| format!("{n:?}")).to_vec()).collect(),
        )),
        Variant::ColorSequence(s) => Some(Shape::Keypoints(
            SequenceKind::Color,
            s.keypoints.iter().map(|k| [k.time, k.color.r, k.color.g, k.color.b].map(|n| format!("{n:?}")).to_vec()).collect(),
        )),
        _ => None,
    }
}

/// Writes the `Debug` text of a variant.
///
/// Trusted: `Debug` of `rbx_types::Variant` is derived and depends on the value
/// alone.
#[verifier::external_body]
pub(crate) fn write_debug(v: &Variant) -> (res: String)
    ensures
        res@ == debug_text(*v),
{
    format!("{v:?}")
}

/// Makes a reference.
///
/// Trusted: `rbx_types::Ref` reads back the hexadecimal digits that it writes.
#[verifier::external_body]
pub(crate) fn reference_variant(referent: u128) -> (res: Variant)
    ensures
        shape(res) == ShapeModel::Ref(referent),
{
    Variant::Ref(format!("{referent:032x}").parse::<Ref>().unwrap())
}

/// Makes an object-valued content.
///
/// Trusted: `rbx_types::Content::from_referent` holds the referent given.
#[verifier::external_body]
pub(crate) fn object_variant(referent: u128) -> (res: Variant)
    ensures
        shape(res) == ShapeModel::Object(referent),
{
    Variant::Content(Content::from_referent(format!("{referent:032x}").parse::<Ref>().unwrap()))
}

/// Makes an attribute map out of entries with ascending names.
///
/// Trusted: `rbx_types::Attributes` collects its entries into a `BTreeMap`
/// keyed by `String`, and a value in it nests less deep than the map.
#[verifier::external_body]
pub(crate) fn attributes_variant(entries: Vec<(String, Variant)>) -> (res: Variant)
    requires
        keyed::sorted(entries@.map_values(|p: (String, Variant)| (p.0@, p.1))),
    ensures
        shape(res) == ShapeModel::Attributes(
            entries@.map_values(|p: (String, Variant)| (p.0@, p.1)),
        ),
        forall|i: int| 0 <= i < entries@.len() ==> nesting((#[trigger] entries@[i]).1) < nesting(res),
{
    Variant::Attributes(entries.into_iter().collect::<Attributes>())
}

/// Reads what a variant holds.
pub fn shape_of(v: &Variant) -> (res: Shape)
    ensures
        res@ == shape(*v),
        res matches Shape::Attributes(list) ==> {
            &&& keyed::sorted(shape(*v)->Attributes_0)
            &&& forall|i: int|
                0 <= i < list@.len() ==> nesting((#[trigger] list@[i]).1) < nesting(*v)
        },
{
    if let Some(s) = reference_shape(v) {
        return s;
    }
    if let Some(s) = attribute_shape(v) {
        return s;
    }
    if let Some(s) = content_shape(v) {
        return s;
    }
    if let Some(s) = float_shape(v) {
        return s;
    }
    if let Some(s) = text_shape(v) {
        return s;
    }
    if let Some(s) = integer_shape(v) {
        return s;
    }
    if let Some(s) = wide_integer_shape(v) {
        return s;
    }
    if let Some(s) = short_number_shape(v) {
        return s;
    }
    if let Some(s) = rect_shape(v) {
        return s;
    }
    if let Some(s) = region_shape(v) {
        return s;
    }
    if let Some(s) = frame_shape(v) {
        return s;
    }
    if let Some(s) = optional_frame_shape(v) {
        return s;
    }
    if let Some(s) = dim_shape(v) {
        return s;
    }
    if let Some(s) = keypoint_shape(v) {
        return s;
    }
    assert(shape(*v) is Other) by {
        if let ShapeModel::Integers(kind, _) = shape(*v) {
            assert(is_integer_shape(shape(*v), true) || is_integer_shape(shape(*v), false));
        }
        if let ShapeModel::Numbers(kind, _) = shape(*v) {
            assert(0 <= number_group(kind) < 5);
        }
    }
    Shape::Other
}

} // verus!
