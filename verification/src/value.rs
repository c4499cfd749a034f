//! Property values as the merge sees them: references and attribute maps are
//! opened up, everything else stays an opaque leaf.

use rbx_types::Variant;
use vstd::prelude::*;

use crate::keyed;
use crate::text;
use crate::text::{same_text, Text};
use crate::variant::{
    attributes_variant, object_variant, reference_variant, same_variant, shape_of, Shape,
    ShapeModel,
};
use crate::variant;

verus! {

/// A property value. A referent is its number, nil being zero.
pub enum Value {
    /// A reference to an instance.
    Ref(u128),
    /// A content that is an instance.
    Object(u128),
    /// An attribute map, sorted by name.
    Attributes(Vec<(String, Value)>),
    /// Any other value.
    Leaf(Variant),
}

/// The mathematical counterpart of [`Value`].
pub ghost enum ValueModel {
    Ref(u128),
    Object(u128),
    Attributes(Seq<(Text, ValueModel)>),
    Leaf(Variant),
}

impl Value {
    pub open spec fn model(self) -> ValueModel
        decreases self,
    {
        match self {
            Value::Ref(r) => ValueModel::Ref(r),
            Value::Object(r) => ValueModel::Object(r),
            Value::Attributes(list) => ValueModel::Attributes(
                Seq::new(
                    list@.len(),
                    |i: int|
                        if 0 <= i < list@.len() {
                            (list@[i].0@, list@[i].1.model())
                        } else {
                            arbitrary()
                        },
                ),
            ),
            Value::Leaf(v) => ValueModel::Leaf(v),
        }
    }
}

impl View for Value {
    type V = ValueModel;

    open spec fn view(&self) -> ValueModel {
        self.model()
    }
}

/// The view of an attribute map is the list of its entries' views.
pub proof fn lemma_attributes_view(value: Value)
    requires
        value is Attributes,
    ensures
        value@ == ValueModel::Attributes(keyed::view_list(value->Attributes_0@)),
{
    let list = value->Attributes_0@;
    assert(value@->Attributes_0 =~= keyed::view_list(list));
}

/// How many levels and entries a value has; a measure for recursion.
pub open spec fn height(value: ValueModel) -> nat
    decreases value,
{
    match value {
        ValueModel::Attributes(list) => 1 + heights(list),
        _ => 1,
    }
}

pub open spec fn heights(list: Seq<(Text, ValueModel)>) -> nat
    decreases list,
{
    if list.len() == 0 {
        0
    } else {
        height(list.last().1) + heights(list.drop_last())
    }
}

pub proof fn lemma_height(list: Seq<(Text, ValueModel)>, i: int)
    requires
        0 <= i < list.len(),
    ensures
        height(list[i].1) <= heights(list),
        height(list[i].1) < height(ValueModel::Attributes(list)),
    decreases list.len(),
{
    if i < list.len() - 1 {
        lemma_height(list.drop_last(), i);
        assert(list.drop_last()[i] == list[i]);
    }
}

pub proof fn lemma_height_lookup(list: Seq<(Text, ValueModel)>, key: Text)
    requires
        keyed::lookup(list, key) is Some,
    ensures
        height(keyed::lookup(list, key)->0) < height(ValueModel::Attributes(list)),
{
    let i = keyed::lemma_lookup_some(list, key);
    lemma_height(list, i);
}

/// A leaf is none of the kinds that are opened up, and attribute maps are
/// sorted, at every level.
pub open spec fn value_wf(value: ValueModel) -> bool
    decreases value,
{
    match value {
        ValueModel::Leaf(v) => {
            let s = variant::shape(v);
            !(s is Ref || s is Object || s is Attributes)
        },
        ValueModel::Attributes(list) => {
            &&& keyed::sorted(list)
            &&& forall|i: int| 0 <= i < list.len() ==> value_wf((#[trigger] list[i]).1)
        },
        _ => true,
    }
}

/// The value that a variant holds.
pub open spec fn value_of(v: Variant) -> ValueModel
    decreases variant::nesting(v),
{
    match variant::shape(v) {
        ShapeModel::Ref(r) => ValueModel::Ref(r),
        ShapeModel::Object(r) => ValueModel::Object(r),
        ShapeModel::Attributes(list) => ValueModel::Attributes(
            Seq::new(
                list.len(),
                |i: int|
                    if variant::nesting(list[i].1) < variant::nesting(v) {
                        (list[i].0, value_of(list[i].1))
                    } else {
                        arbitrary()
                    },
            ),
        ),
        _ => ValueModel::Leaf(v),
    }
}

/// Opens a variant up.
pub fn value_from_variant(v: &Variant) -> (res: Value)
    ensures
        res@ == value_of(*v),
        value_wf(res@),
    decreases variant::nesting(*v),
{
    match shape_of(v) {
        Shape::Ref(r) => Value::Ref(r),
        Shape::Object(r) => Value::Object(r),
        Shape::Attributes(list) => {
            let ghost names = variant::shape(*v)->Attributes_0;
            let mut out: Vec<(String, Value)> = Vec::new();
            let mut i: usize = 0;
            while i < list.len()
                invariant
                    i <= list.len(),
                    out.len() == i,
                    names == list@.map_values(|p: (String, Variant)| (p.0@, p.1)),
                    forall|j: int|
                        0 <= j < list@.len() ==> variant::nesting((#[trigger] list@[j]).1)
                            < variant::nesting(*v),
                    forall|j: int|
                        0 <= j < i ==> (#[trigger] out@[j]).0@ == list@[j].0@ && out@[j].1@
                            == value_of(list@[j].1) && value_wf(out@[j].1@),
                decreases list.len() - i,
            {
                let value = value_from_variant(&list[i].1);
                out.push((list[i].0.clone(), value));
                i += 1;
            }
            let res = Value::Attributes(out);
            proof {
                lemma_attributes_view(res);
                let a = res@->Attributes_0;
                let b = value_of(*v)->Attributes_0;
                assert forall|j: int| 0 <= j < a.len() implies a[j] == b[j] by {
                    assert(names[j] == (list@[j].0@, list@[j].1));
                    assert(variant::nesting(list@[j].1) < variant::nesting(*v));
                    assert(out@[j].0@ == list@[j].0@);
                }
                assert(a =~= b);
                assert forall|j: int, k: int| 0 <= j < k < a.len() implies text::text_lt(
                    (#[trigger] a[j]).0,
                    (#[trigger] a[k]).0,
                ) by {
                    assert(names[j].0 == a[j].0 && names[k].0 == a[k].0);
                }
                assert forall|j: int| 0 <= j < a.len() implies value_wf((#[trigger] a[j]).1) by {
                    assert(value_wf(out@[j].1@));
                }
            }
            res
        },
        _ => Value::Leaf(v.clone()),
    }
}

/// Closes a value up again.
pub fn value_into_variant(value: &Value) -> (res: Variant)
    requires
        value_wf(value@),
    ensures
        value_of(res) == value@,
    decreases height(value@),
{
    match value {
        Value::Ref(r) => reference_variant(*r),
        Value::Object(r) => object_variant(*r),
        Value::Attributes(list) => {
            let ghost model = value@->Attributes_0;
            proof {
                lemma_attributes_view(*value);
            }
            let mut out: Vec<(String, Variant)> = Vec::new();
            let mut i: usize = 0;
            while i < list.len()
                invariant
                    i <= list.len(),
                    out.len() == i,
                    model == keyed::view_list(list@),
                    height(value@) == height(ValueModel::Attributes(model)),
                    forall|j: int| 0 <= j < model.len() ==> value_wf((#[trigger] model[j]).1),
                    forall|j: int|
                        0 <= j < i ==> (#[trigger] out@[j]).0@ == model[j].0 && value_of(out@[j].1)
                            == model[j].1,
                decreases list.len() - i,
            {
                proof {
                    lemma_height(model, i as int);
                    assert(model[i as int] == (list@[i as int].0@, list@[i as int].1@));
                }
                let inner = value_into_variant(&list[i].1);
                out.push((list[i].0.clone(), inner));
                i += 1;
            }
            let ghost entries = out@;
            let ghost names = out@.map_values(|p: (String, Variant)| (p.0@, p.1));
            proof {
                assert forall|j: int, k: int| 0 <= j < k < names.len() implies text::text_lt(
                    (#[trigger] names[j]).0,
                    (#[trigger] names[k]).0,
                ) by {
                    assert(names[j].0 == out@[j].0@ && names[k].0 == out@[k].0@);
                    assert(model[j].0 == names[j].0 && model[k].0 == names[k].0);
                }
            }
            let res = attributes_variant(out);
            proof {
                let a = value_of(res)->Attributes_0;
                assert forall|j: int| 0 <= j < model.len() implies a[j] == model[j] by {
                    assert(names[j] == (entries[j].0@, entries[j].1));
                    assert(variant::nesting(entries[j].1) < variant::nesting(res));
                }
                assert(a =~= model);
            }
            res
        },
        Value::Leaf(v) => v.clone(),
    }
}

/// Copies a value.
pub fn copy_value(value: &Value) -> (res: Value)
    ensures
        res@ == value@,
    decreases height(value@),
{
    match value {
        Value::Ref(r) => Value::Ref(*r),
        Value::Object(r) => Value::Object(*r),
        Value::Attributes(list) => {
            proof {
                lemma_attributes_view(*value);
            }
            let mut out: Vec<(String, Value)> = Vec::new();
            let mut i: usize = 0;
            while i < list.len()
                invariant
                    i <= list.len(),
                    out.len() == i,
                    value@ == ValueModel::Attributes(keyed::view_list(list@)),
                    forall|j: int|
                        0 <= j < i ==> (#[trigger] out@[j]).0@ == list@[j].0@ && out@[j].1@
                            == list@[j].1@,
                decreases list.len() - i,
            {
                proof {
                    lemma_height(keyed::view_list(list@), i as int);
                }
                let inner = copy_value(&list[i].1);
                out.push((list[i].0.clone(), inner));
                i += 1;
            }
            let res = Value::Attributes(out);
            proof {
                lemma_attributes_view(res);
                assert(keyed::view_list(out@) =~= keyed::view_list(list@));
            }
            res
        },
        Value::Leaf(v) => Value::Leaf(v.clone()),
    }
}

/// Whether two variants compare as equal, either way round.
pub open spec fn variants_agree(a: Variant, b: Variant) -> bool {
    variant::variants_equal(a, b) && variant::variants_equal(b, a)
}

/// Equality of two leaves: single floating-point numbers by their bits, unique ids
/// by their numbers, all else as the values themselves compare.
pub open spec fn leaf_equal(a: Variant, b: Variant) -> bool {
    match (variant::shape(a), variant::shape(b)) {
        (ShapeModel::Float32(x, _), ShapeModel::Float32(y, _)) => x == y,
        (ShapeModel::Float64(x, _), ShapeModel::Float64(y, _)) => x == y,
        (ShapeModel::UnknownContent, ShapeModel::UnknownContent) => true,
        (ShapeModel::UniqueId(x), ShapeModel::UniqueId(y)) => x == y,
        (ShapeModel::UniqueId(_), _) => false,
        (_, ShapeModel::UniqueId(_)) => false,
        _ => variants_agree(a, b),
    }
}

/// Compares two leaves.
pub fn same_leaf(a: &Variant, b: &Variant) -> (res: bool)
    ensures
        res == leaf_equal(*a, *b),
{
    match (shape_of(a), shape_of(b)) {
        (Shape::Float32(x, _), Shape::Float32(y, _)) => x == y,
        (Shape::Float64(x, _), Shape::Float64(y, _)) => x == y,
        (Shape::UnknownContent, Shape::UnknownContent) => true,
        (Shape::UniqueId(x), Shape::UniqueId(y)) => x == y,
        (Shape::UniqueId(_), _) => false,
        (_, Shape::UniqueId(_)) => false,
        _ => same_variant(a, b),
    }
}

/// Equality as the variants themselves compare: raw referents, and no
/// difference between the two zeros.
pub open spec fn raw_equal(a: ValueModel, b: ValueModel) -> bool
    decreases a,
{
    match (a, b) {
        (ValueModel::Ref(x), ValueModel::Ref(y)) => x == y,
        (ValueModel::Object(x), ValueModel::Object(y)) => x == y,
        (ValueModel::Attributes(x), ValueModel::Attributes(y)) => {
            &&& x.len() == y.len()
            &&& forall|i: int|
                0 <= i < x.len() ==> (#[trigger] x[i]).0 == y[i].0 && raw_equal(x[i].1, y[i].1)
        },
        (ValueModel::Leaf(x), ValueModel::Leaf(y)) => variants_agree(x, y),
        _ => false,
    }
}

/// Compares two values as the variants themselves compare.
pub fn same_raw(a: &Value, b: &Value) -> (res: bool)
    ensures
        res == raw_equal(a@, b@),
    decreases height(a@),
{
    match (a, b) {
        (Value::Ref(x), Value::Ref(y)) => *x == *y,
        (Value::Object(x), Value::Object(y)) => *x == *y,
        (Value::Attributes(x), Value::Attributes(y)) => {
            proof {
                lemma_attributes_view(*a);
                lemma_attributes_view(*b);
            }
            let ghost mx = keyed::view_list(x@);
            let ghost my = keyed::view_list(y@);
            if x.len() != y.len() {
                return false;
            }
            let mut i: usize = 0;
            while i < x.len()
                invariant
                    i <= x.len(),
                    x.len() == y.len(),
                    mx == keyed::view_list(x@),
                    my == keyed::view_list(y@),
                    a@ == ValueModel::Attributes(mx),
                    b@ == ValueModel::Attributes(my),
                    forall|j: int|
                        0 <= j < i ==> (#[trigger] mx[j]).0 == my[j].0 && raw_equal(
                            mx[j].1,
                            my[j].1,
                        ),
                decreases x.len() - i,
            {
                proof {
                    lemma_height(mx, i as int);
                    assert(mx[i as int] == (x@[i as int].0@, x@[i as int].1@));
                    assert(my[i as int] == (y@[i as int].0@, y@[i as int].1@));
                }
                if !same_text(x[i].0.as_str(), y[i].0.as_str()) || !same_raw(&x[i].1, &y[i].1) {
                    assert(!(mx[i as int].0 == my[i as int].0 && raw_equal(
                        mx[i as int].1,
                        my[i as int].1,
                    )));
                    return false;
                }
                i += 1;
            }
            true
        },
        (Value::Leaf(x), Value::Leaf(y)) => same_variant(x, y),
        _ => false,
    }
}

/// The unique id that a value is, where it is one.
pub open spec fn unique_id_value(value: ValueModel) -> Option<u128> {
    match value {
        ValueModel::Leaf(v) => match variant::shape(v) {
            ShapeModel::UniqueId(u) => Some(u),
            _ => None,
        },
        _ => None,
    }
}

/// Reads a unique id.
pub fn read_unique_id(value: &Value) -> (res: Option<u128>)
    ensures
        res == unique_id_value(value@),
{
    match value {
        Value::Leaf(v) => match shape_of(v) {
            Shape::UniqueId(u) => Some(u),
            _ => None,
        },
        _ => None,
    }
}

} // verus!
