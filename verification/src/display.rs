//! The text that a property value is shown with.

use rbx_types::Variant;
use vstd::prelude::*;

use crate::keyed;
use crate::semantic;
use crate::semantic::{DomModel, SemanticDom};
use crate::text;
use crate::text::{decimal_string, join_strings, quote, Text};
use crate::value;
use crate::value::{Value, ValueModel};
use crate::variant;
use crate::variant::{
    shape_of, write_debug, BytesKind, IntegerKind, NumberKind, SequenceKind, Shape, ShapeModel,
};

verus! {

/// The hexadecimal digits of the BLAKE3 hash of some bytes.
pub uninterp spec fn blake3_hex(bytes: Seq<u8>) -> Seq<char>;

/// Hashes bytes.
///
/// Trusted: `blake3::hash` and the `Display` of its result depend on the bytes
/// alone.
#[verifier::external_body]
fn hash_text(bytes: &Vec<u8>) -> (res: String)
    ensures
        res@ == blake3_hex(bytes@),
{
    blake3::hash(bytes).to_string()
}

/// Bytes by their number and their hash.
pub open spec fn bytes_summary_text(bytes: Seq<u8>) -> Text {
    "len="@ + text::decimal(bytes.len() as int) + " blake3="@ + blake3_hex(bytes)
}

/// Sums bytes up.
pub fn bytes_summary(bytes: &Vec<u8>) -> (res: String)
    ensures
        res@ == bytes_summary_text(bytes@),
{
    let mut out = "len=".to_owned();
    out.append(decimal_string(bytes.len() as i128).as_str());
    out.append(" blake3=");
    out.append(hash_text(bytes).as_str());
    out
}

/// A kind with its components in brackets.
pub open spec fn call(name: Text, arguments: Text) -> Text {
    name + "("@ + arguments + ")"@
}

fn write_call(name: &str, arguments: &str) -> (res: String)
    ensures
        res@ == call(name@, arguments@),
{
    let mut out = name.to_owned();
    out.append("(");
    out.append(arguments);
    out.append(")");
    out
}

/// Components with commas between them.
pub open spec fn listed(parts: Seq<Text>) -> Text {
    text::join(parts, ", "@)
}

/// Two lists of components with a bar between them.
pub open spec fn barred(parts: Seq<Text>, cut: int) -> Text {
    listed(parts.take(cut)) + " | "@ + listed(parts.skip(cut))
}

fn write_range(parts: &Vec<String>, from: usize, to: usize) -> (res: String)
    requires
        from <= to <= parts.len(),
    ensures
        res@ == listed(text::strings_view(parts@).subrange(from as int, to as int)),
{
    let mut some: Vec<String> = Vec::new();
    let mut i: usize = from;
    while i < to
        invariant
            from <= i <= to <= parts.len(),
            text::strings_view(some@) == text::strings_view(parts@).subrange(
                from as int,
                i as int,
            ),
        decreases to - i,
    {
        let ghost before = text::strings_view(some@);
        some.push(parts[i].clone());
        assert(text::strings_view(some@) =~= before.push(parts@[i as int]@));
        assert(text::strings_view(parts@).subrange(from as int, i + 1) =~= before.push(
            parts@[i as int]@,
        ));
        i += 1;
    }
    join_strings(&some, ", ")
}

fn write_listed(parts: &Vec<String>) -> (res: String)
    ensures
        res@ == listed(text::strings_view(parts@)),
{
    join_strings(parts, ", ")
}

fn write_barred(parts: &Vec<String>, cut: usize) -> (res: String)
    requires
        cut <= parts.len(),
    ensures
        res@ == barred(text::strings_view(parts@), cut as int),
{
    let ghost all = text::strings_view(parts@);
    assert(all.subrange(0, cut as int) =~= all.take(cut as int));
    assert(all.subrange(cut as int, all.len() as int) =~= all.skip(cut as int));
    let mut out = write_range(parts, 0, cut);
    out.append(" | ");
    out.append(write_range(parts, cut, parts.len()).as_str());
    out
}

pub open spec fn decimals(numbers: Seq<i128>) -> Seq<Text> {
    numbers.map_values(|n: i128| text::decimal(n as int))
}

pub open spec fn integer_name(kind: IntegerKind) -> Text {
    match kind {
        IntegerKind::Int32 => "Int32"@,
        IntegerKind::Int64 => "Int64"@,
        IntegerKind::Enum => "Enum"@,
        IntegerKind::Vector2int16 => "Vector2int16"@,
        IntegerKind::Vector3int16 => "Vector3int16"@,
        IntegerKind::Color3uint8 => "Color3uint8"@,
        IntegerKind::Region3int16 => "Region3int16"@,
        IntegerKind::SecurityCapabilities => "SecurityCapabilities"@,
    }
}

/// The text of the integer kinds: components in order, those of a region's two
/// corners apart.
pub open spec fn integers_text(kind: IntegerKind, numbers: Seq<i128>) -> Text {
    let parts = decimals(numbers);
    if kind is Region3int16 && parts.len() >= 3 {
        call(integer_name(kind), barred(parts, 3))
    } else {
        call(integer_name(kind), listed(parts))
    }
}

fn write_integers(kind: IntegerKind, numbers: &Vec<i128>) -> (res: String)
    ensures
        res@ == integers_text(kind, numbers@),
{
    let mut parts: Vec<String> = Vec::new();
    let mut i: usize = 0;
    while i < numbers.len()
        invariant
            i <= numbers.len(),
            parts.len() == i,
            forall|k: int| 0 <= k < i ==> (#[trigger] parts@[k])@ == text::decimal(numbers@[k] as int),
        decreases numbers.len() - i,
    {
        parts.push(decimal_string(numbers[i]));
        i += 1;
    }
    assert(text::strings_view(parts@) =~= decimals(numbers@));
    let name = match kind {
        IntegerKind::Int32 => "Int32",
        IntegerKind::Int64 => "Int64",
        IntegerKind::Enum => "Enum",
        IntegerKind::Vector2int16 => "Vector2int16",
        IntegerKind::Vector3int16 => "Vector3int16",
        IntegerKind::Color3uint8 => "Color3uint8",
        IntegerKind::Region3int16 => "Region3int16",
        IntegerKind::SecurityCapabilities => "SecurityCapabilities",
    };
    let corners = match kind {
        IntegerKind::Region3int16 => true,
        _ => false,
    };
    if corners && parts.len() >= 3 {
        write_call(name, write_barred(&parts, 3).as_str())
    } else {
        write_call(name, write_listed(&parts).as_str())
    }
}

/// The text of the number kinds: components in order, the position of a frame
/// and the corners of a region apart.
pub open spec fn numbers_text(kind: NumberKind, parts: Seq<Text>) -> Text {
    match kind {
        NumberKind::Vector2 => call("Vector2"@, listed(parts)),
        NumberKind::Vector3 => call("Vector3"@, listed(parts)),
        NumberKind::Color3 => call("Color3"@, listed(parts)),
        NumberKind::NumberRange => call("NumberRange"@, listed(parts)),
        NumberKind::Rect => call("Rect"@, listed(parts)),
        NumberKind::Region3 => if parts.len() >= 3 {
            call("Region3"@, barred(parts, 3))
        } else {
            call("Region3"@, listed(parts))
        },
        NumberKind::Ray => if parts.len() >= 3 {
            call("Ray"@, barred(parts, 3))
        } else {
            call("Ray"@, listed(parts))
        },
        NumberKind::CFrame => frame_text(parts),
        NumberKind::OptionalCFrame => if parts.len() == 0 {
            "OptionalCFrame(none)"@
        } else {
            call("OptionalCFrame"@, frame_text(parts))
        },
        NumberKind::PhysicalProperties => if parts.len() == 0 {
            "PhysicalProperties(Default)"@
        } else {
            call("PhysicalProperties"@, listed(parts))
        },
    }
}

pub open spec fn frame_text(parts: Seq<Text>) -> Text {
    if parts.len() >= 3 {
        call("CFrame"@, barred(parts, 3))
    } else {
        call("CFrame"@, listed(parts))
    }
}

/// Components with a bar behind the third.
fn write_three_and_more(name: &str, parts: &Vec<String>) -> (res: String)
    ensures
        res@ == (if parts@.len() >= 3 {
            call(name@, barred(text::strings_view(parts@), 3))
        } else {
            call(name@, listed(text::strings_view(parts@)))
        }),
{
    if parts.len() >= 3 {
        write_call(name, write_barred(parts, 3).as_str())
    } else {
        write_call(name, write_listed(parts).as_str())
    }
}

fn write_numbers(kind: NumberKind, parts: &Vec<String>) -> (res: String)
    ensures
        res@ == numbers_text(kind, text::strings_view(parts@)),
{
    match kind {
        NumberKind::Vector2 => write_call("Vector2", write_listed(parts).as_str()),
        NumberKind::Vector3 => write_call("Vector3", write_listed(parts).as_str()),
        NumberKind::Color3 => write_call("Color3", write_listed(parts).as_str()),
        NumberKind::NumberRange => write_call("NumberRange", write_listed(parts).as_str()),
        NumberKind::Rect => write_call("Rect", write_listed(parts).as_str()),
        NumberKind::Region3 => write_three_and_more("Region3", parts),
        NumberKind::Ray => write_three_and_more("Ray", parts),
        NumberKind::CFrame => write_three_and_more("CFrame", parts),
        NumberKind::OptionalCFrame => if parts.len() == 0 {
            "OptionalCFrame(none)".to_owned()
        } else {
            write_call("OptionalCFrame", write_three_and_more("CFrame", parts).as_str())
        },
        NumberKind::PhysicalProperties => if parts.len() == 0 {
            "PhysicalProperties(Default)".to_owned()
        } else {
            write_call("PhysicalProperties", write_listed(parts).as_str())
        },
    }
}

/// Scales and offsets in turn.
pub open spec fn flattened(dims: Seq<(Text, i32)>) -> Seq<Text>
    decreases dims.len(),
{
    if dims.len() == 0 {
        Seq::empty()
    } else {
        flattened(dims.drop_last()).push(dims.last().0).push(text::decimal(dims.last().1 as int))
    }
}

pub open spec fn dims_text(dims: Seq<(Text, i32)>) -> Text {
    if dims.len() == 1 {
        call("UDim"@, listed(flattened(dims)))
    } else {
        call("UDim2"@, listed(flattened(dims)))
    }
}

fn write_dims(dims: &Vec<(String, i32)>) -> (res: String)
    ensures
        res@ == dims_text(dims@.map_values(|p: (String, i32)| (p.0@, p.1))),
{
    let ghost view = dims@.map_values(|p: (String, i32)| (p.0@, p.1));
    let mut parts: Vec<String> = Vec::new();
    assert(text::strings_view(parts@) =~= flattened(view.take(0)));
    let mut i: usize = 0;
    while i < dims.len()
        invariant
            i <= dims.len(),
            view == dims@.map_values(|p: (String, i32)| (p.0@, p.1)),
            text::strings_view(parts@) == flattened(view.take(i as int)),
        decreases dims.len() - i,
    {
        let ghost before = text::strings_view(parts@);
        parts.push(dims[i].0.clone());
        parts.push(decimal_string(dims[i].1 as i128));
        proof {
            assert(view.take(i + 1).drop_last() =~= view.take(i as int));
            assert(text::strings_view(parts@) =~= before.push(view[i as int].0).push(
                text::decimal(view[i as int].1 as int),
            ));
        }
        i += 1;
    }
    assert(view.take(dims.len() as int) =~= view);
    let arguments = write_listed(&parts);
    if dims.len() == 1 {
        write_call("UDim", arguments.as_str())
    } else {
        write_call("UDim2", arguments.as_str())
    }
}

pub open spec fn keypoint_texts(points: Seq<Seq<Text>>) -> Seq<Text> {
    points.map_values(|p: Seq<Text>| "("@ + listed(p) + ")"@)
}

pub open spec fn keypoints_text(kind: SequenceKind, points: Seq<Seq<Text>>) -> Text {
    let name = match kind {
        SequenceKind::Number => "NumberSequence(["@,
        SequenceKind::Color => "ColorSequence(["@,
    };
    name + listed(keypoint_texts(points)) + "])"@
}

fn write_keypoints(kind: SequenceKind, points: &Vec<Vec<String>>) -> (res: String)
    ensures
        res@ == keypoints_text(kind, points@.map_values(|p: Vec<String>| text::strings_view(p@))),
{
    let ghost view = points@.map_values(|p: Vec<String>| text::strings_view(p@));
    let mut parts: Vec<String> = Vec::new();
    let mut i: usize = 0;
    while i < points.len()
        invariant
            i <= points.len(),
            parts.len() == i,
            forall|k: int|
                0 <= k < i ==> (#[trigger] parts@[k])@ == "("@ + listed(
                    text::strings_view(points@[k]@),
                ) + ")"@,
        decreases points.len() - i,
    {
        let mut part = "(".to_owned();
        part.append(write_listed(&points[i]).as_str());
        part.append(")");
        parts.push(part);
        i += 1;
    }
    assert(text::strings_view(parts@) =~= keypoint_texts(view));
    let mut out = match kind {
        SequenceKind::Number => "NumberSequence([".to_owned(),
        SequenceKind::Color => "ColorSequence([".to_owned(),
    };
    out.append(write_listed(&parts).as_str());
    out.append("])");
    out
}

pub open spec fn tags_text(tags: Seq<Text>) -> Text {
    "["@ + listed(tags.map_values(|t: Text| text::quoted(t))) + "]"@
}

fn write_tags(tags: &Vec<String>) -> (res: String)
    ensures
        res@ == tags_text(text::strings_view(tags@)),
{
    let mut parts: Vec<String> = Vec::new();
    let mut i: usize = 0;
    while i < tags.len()
        invariant
            i <= tags.len(),
            parts.len() == i,
            forall|k: int| 0 <= k < i ==> (#[trigger] parts@[k])@ == text::quoted(tags@[k]@),
        decreases tags.len() - i,
    {
        parts.push(quote(tags[i].as_str()));
        i += 1;
    }
    assert(text::strings_view(parts@) =~= text::strings_view(tags@).map_values(
        |t: Text| text::quoted(t),
    ));
    let mut out = "[".to_owned();
    out.append(write_listed(&parts).as_str());
    out.append("]");
    out
}

pub open spec fn bytes_text(kind: BytesKind, bytes: Seq<u8>) -> Text {
    match kind {
        BytesKind::BinaryString => call("BinaryString"@, bytes_summary_text(bytes)),
        BytesKind::SharedString => call("SharedString"@, bytes_summary_text(bytes)),
        BytesKind::NetAssetRef => call("NetAssetRef"@, bytes_summary_text(bytes)),
    }
}

/// The text of a value that holds no reference.
pub open spec fn leaf_text(v: Variant) -> Text {
    match variant::shape(v) {
        ShapeModel::Text(s) => text::quoted(s),
        ShapeModel::Bool(b) => if b {
            "Bool(true)"@
        } else {
            "Bool(false)"@
        },
        ShapeModel::Float32(_, s) => call("Float32"@, s),
        ShapeModel::Float64(_, s) => call("Float64"@, s),
        ShapeModel::Integers(kind, n) => integers_text(kind, n),
        ShapeModel::Numbers(kind, parts) => numbers_text(kind, parts),
        ShapeModel::Dims(dims) => dims_text(dims),
        ShapeModel::Keypoints(kind, points) => keypoints_text(kind, points),
        ShapeModel::Tags(tags) => tags_text(tags),
        ShapeModel::Bytes(kind, bytes) => bytes_text(kind, bytes),
        ShapeModel::Uri(uri) => "content "@ + text::quoted(uri),
        ShapeModel::NoContent => "content none"@,
        ShapeModel::UnknownContent => "content <unknown>"@,
        _ => variant::debug_text(v),
    }
}

fn write_leaf(v: &Variant) -> (res: String)
    ensures
        res@ == leaf_text(*v),
{
    match shape_of(v) {
        Shape::Text(s) => quote(s.as_str()),
        Shape::Bool(b) => if b {
            "Bool(true)".to_owned()
        } else {
            "Bool(false)".to_owned()
        },
        Shape::Float32(_, s) => write_call("Float32", s.as_str()),
        Shape::Float64(_, s) => write_call("Float64", s.as_str()),
        Shape::Integers(kind, n) => write_integers(kind, &n),
        Shape::Numbers(kind, parts) => write_numbers(kind, &parts),
        Shape::Dims(dims) => write_dims(&dims),
        Shape::Keypoints(kind, points) => write_keypoints(kind, &points),
        Shape::Tags(tags) => write_tags(&tags),
        Shape::Bytes(kind, bytes) => {
            let summary = bytes_summary(&bytes);
            match kind {
                BytesKind::BinaryString => write_call("BinaryString", summary.as_str()),
                BytesKind::SharedString => write_call("SharedString", summary.as_str()),
                BytesKind::NetAssetRef => write_call("NetAssetRef", summary.as_str()),
            }
        },
        Shape::Uri(uri) => {
            let mut out = "content ".to_owned();
            out.append(quote(uri.as_str()).as_str());
            out
        },
        Shape::NoContent => "content none".to_owned(),
        Shape::UnknownContent => "content <unknown>".to_owned(),
        _ => write_debug(v),
    }
}

/// The text of a reference: the path of its target in the file that it stands in,
/// if there is one.
pub open spec fn ref_text(file: Option<DomModel>, referent: u128) -> Text {
    if referent == 0 {
        "→ nil"@
    } else {
        match file {
            Some(d) => match semantic::node_of_ref(d, referent) {
                Some(node) => "→ "@ + semantic::dom_path(d, node as int),
                None => "→ <external>"@,
            },
            None => "→ <external>"@,
        }
    }
}

/// The view of an optional file.
pub open spec fn file_view(file: Option<&SemanticDom>) -> Option<DomModel> {
    match file {
        Some(d) => Some(d@),
        None => None,
    }
}

fn write_ref(file: Option<&SemanticDom>, referent: u128) -> (res: String)
    requires
        file matches Some(d) ==> d.wf(),
    ensures
        res@ == ref_text(file_view(file), referent),
{
    if referent == 0 {
        return "→ nil".to_owned();
    }
    match file {
        Some(d) => match d.node_for_ref(referent) {
            Some(node) => {
                let mut out = "→ ".to_owned();
                out.append(d.path(node).as_str());
                out
            },
            None => "→ <external>".to_owned(),
        },
        None => "→ <external>".to_owned(),
    }
}

/// The text of a value that stands in a file. Attribute maps are written in
/// braces, sorted by name.
pub open spec fn value_text(file: Option<DomModel>, v: ValueModel) -> Text
    decreases v,
{
    match v {
        ValueModel::Ref(r) => ref_text(file, r),
        ValueModel::Object(r) => ref_text(file, r),
        ValueModel::Attributes(list) => "{"@ + listed(entry_texts(file, list)) + "}"@,
        ValueModel::Leaf(v) => leaf_text(v),
    }
}

pub open spec fn entry_texts(file: Option<DomModel>, list: Seq<(Text, ValueModel)>) -> Seq<Text>
    decreases list,
{
    if list.len() == 0 {
        Seq::empty()
    } else {
        entry_texts(file, list.drop_last()).push(
            list.last().0 + ": "@ + value_text(file, list.last().1),
        )
    }
}

/// Writes a value that stands in a file.
pub fn display_value(file: Option<&SemanticDom>, v: &Value) -> (res: String)
    requires
        file matches Some(d) ==> d.wf(),
    ensures
        res@ == value_text(file_view(file), v@),
    decreases value::height(v@),
{
    match v {
        Value::Ref(r) => write_ref(file, *r),
        Value::Object(r) => write_ref(file, *r),
        Value::Attributes(list) => {
            proof {
                value::lemma_attributes_view(*v);
            }
            let ghost model = keyed::view_list(list@);
            let mut parts: Vec<String> = Vec::new();
            assert(text::strings_view(parts@) =~= entry_texts(file_view(file), model.take(0)));
            let mut i: usize = 0;
            while i < list.len()
                invariant
                    i <= list.len(),
                    file matches Some(d) ==> d.wf(),
                    v@ == ValueModel::Attributes(model),
                    model == keyed::view_list(list@),
                    text::strings_view(parts@) == entry_texts(
                        file_view(file),
                        model.take(i as int),
                    ),
                decreases list.len() - i,
            {
                let ghost before = text::strings_view(parts@);
                proof {
                    value::lemma_height(model, i as int);
                    assert(model.take(i + 1).drop_last() =~= model.take(i as int));
                    assert(model[i as int] == (list@[i as int].0@, list@[i as int].1@));
                }
                let mut part = list[i].0.clone();
                part.append(": ");
                part.append(display_value(file, &list[i].1).as_str());
                let ghost written = part@;
                parts.push(part);
                assert(text::strings_view(parts@) =~= before.push(written));
                i += 1;
            }
            assert(model.take(list.len() as int) =~= model);
            let mut out = "{".to_owned();
            out.append(write_listed(&parts).as_str());
            out.append("}");
            out
        },
        Value::Leaf(v) => write_leaf(v),
    }
}

} // verus!
