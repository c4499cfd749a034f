//! The outside world of a merge: instance trees as `rbx_dom_weak` holds them,
//! the two file formats, and the reflection database.

use std::io::Cursor;

use rbx_dom_weak::{InstanceBuilder, WeakDom};
use rbx_reflection::{ClassTag, PropertyKind, PropertySerialization, ReflectionDatabase};
use rbx_types::{Ref, Variant};
use rbx_xml::{DecodeOptions, DecodePropertyBehavior, EncodeOptions, EncodePropertyBehavior};
use vstd::prelude::*;

use crate::chunks;
use crate::database;
use crate::keyed;
use crate::markup;
use crate::outline;
use crate::text::Text;
use crate::variant;

verus! {

#[verifier::external_type_specification]
#[verifier::external_body]
pub struct ExWeakDom(rbx_dom_weak::WeakDom);

#[verifier::external_type_specification]
#[verifier::external_body]
pub struct ExReflectionDatabase<'a>(rbx_reflection::ReflectionDatabase<'a>);

/// One instance of a tree, its properties in no particular order.
pub struct RawInstance {
    pub class: String,
    pub name: String,
    pub children: Vec<u128>,
    pub properties: Vec<(String, Variant)>,
}

/// The mathematical counterpart of [`RawInstance`].
pub ghost struct RawModel {
    pub class: Text,
    pub name: Text,
    pub children: Seq<u128>,
    pub properties: Map<Text, Variant>,
}

/// The instances of a tree by their referents, and the referent of the root.
pub ghost struct Forest {
    pub root: u128,
    pub instances: Map<u128, RawModel>,
}

/// What a tree holds.
pub uninterp spec fn forest(dom: WeakDom) -> Forest;

/// The unique ids that a tree keeps track of.
pub uninterp spec fn claimed_ids(dom: WeakDom) -> Set<u128>;

/// The entries of a list of properties.
pub open spec fn property_list(list: Seq<(String, Variant)>) -> Seq<(Text, Variant)> {
    list.map_values(|p: (String, Variant)| (p.0@, p.1))
}

/// Whether a list holds the entries of a map, each once.
pub open spec fn lists_map(list: Seq<(Text, Variant)>, map: Map<Text, Variant>) -> bool {
    &&& forall|i: int, j: int|
        0 <= i < j < list.len() ==> (#[trigger] list[i]).0 != (#[trigger] list[j]).0
    &&& forall|k: Text| #[trigger]
        keyed::lookup(list, k) == (if map.contains_key(k) {
            Some(map[k])
        } else {
            None
        })
}

/// The referent of the root.
///
/// Trusted: `WeakDom::root_ref`.
#[verifier::external_body]
pub(crate) fn root_referent(dom: &WeakDom) -> (res: u128)
    ensures
        res == forest(*dom).root,
{
    u128::from_str_radix(&dom.root_ref().to_string(), 16).unwrap()
}

/// The instance of that referent.
///
/// Trusted: `WeakDom::get_by_ref` finds the instance, and the instance's fields
/// and `children` are what it holds. A tree that holds an instance holds
/// finitely many.
#[verifier::external_body]
pub(crate) fn get_instance(dom: &WeakDom, referent: u128) -> (res: Option<RawInstance>)
    ensures
        match res {
            Some(instance) => {
                let model = forest(*dom).instances[referent];
                &&& forest(*dom).instances.contains_key(referent)
                &&& forest(*dom).instances.dom().finite()
                &&& instance.class@ == model.class
                &&& instance.name@ == model.name
                &&& instance.children@ == model.children
                &&& lists_map(property_list(instance.properties@), model.properties)
            },
            None => !forest(*dom).instances.contains_key(referent),
        },
{
    let referent: Ref = format!("{referent:032x}").parse().unwrap();
    dom.get_by_ref(referent).map(|i| RawInstance {
        class: i.class.to_string(),
        name: i.name.clone(),
        children: i.children().iter().map(|c| u128::from_str_radix(&c.to_string(), 16).unwrap()).collect(),
        properties: i.properties.iter().map(|(k, v)| (k.to_string(), v.clone())).collect(),
    })
}

/// The map that a list of properties with distinct names is.
pub open spec fn map_of(list: Seq<(Text, Variant)>) -> Map<Text, Variant> {
    Map::new(
        |k: Text| keyed::lookup(list, k) is Some,
        |k: Text| keyed::lookup(list, k)->0,
    )
}

/// The name of the property that holds an instance's unique id.
pub open spec fn unique_id_key() -> Text {
    "UniqueId"@
}

/// The unique id that an instance with those properties brings along.
pub open spec fn brought_id(properties: Map<Text, Variant>) -> Option<u128> {
    if properties.contains_key(unique_id_key()) {
        match variant::shape(properties[unique_id_key()]) {
            variant::ShapeModel::UniqueId(u) => Some(u),
            _ => None,
        }
    } else {
        None
    }
}

/// What becomes of an instance's properties when it enters a tree that keeps
/// track of `claimed` unique ids: they stay as they are, but a unique id that is
/// taken is replaced. `after` are the ids that the tree then keeps track of.
pub open spec fn admitted(
    brought: Map<Text, Variant>,
    claimed: Set<u128>,
    kept: Map<Text, Variant>,
    after: Set<u128>,
) -> bool {
    match brought_id(brought) {
        None => kept == brought && after == claimed,
        Some(u) if !claimed.contains(u) => kept == brought && after == claimed.insert(u),
        Some(_) => exists|fresh: Variant| #[trigger]
            is_fresh_id(brought, claimed, kept, after, fresh),
    }
}

/// The case of [`admitted`] where the unique id was taken.
pub open spec fn is_fresh_id(
    brought: Map<Text, Variant>,
    claimed: Set<u128>,
    kept: Map<Text, Variant>,
    after: Set<u128>,
    fresh: Variant,
) -> bool {
    &&& variant::shape(fresh) is UniqueId
    &&& kept == brought.insert(unique_id_key(), fresh)
    &&& after == claimed.insert(variant::shape(fresh)->UniqueId_0)
}

/// Makes a tree of one instance.
///
/// Trusted: `WeakDom::new` of a builder without children. The root keeps all of
/// its properties, as no unique id is taken yet.
#[verifier::external_body]
pub(crate) fn new_tree(
    referent: u128,
    class: &str,
    name: &str,
    properties: Vec<(String, Variant)>,
) -> (res: WeakDom)
    requires
        referent != 0,
        keyed::sorted(property_list(properties@)),
    ensures
        forest(res).root == referent,
        forest(res).instances == Map::empty().insert(
            referent,
            (RawModel {
                class: class@,
                name: name@,
                children: Seq::empty(),
                properties: map_of(property_list(properties@)),
            }),
        ),
        admitted(
            map_of(property_list(properties@)),
            Set::empty(),
            map_of(property_list(properties@)),
            claimed_ids(res),
        ),
{
    let builder = InstanceBuilder::new(class)
        .with_name(name)
        .with_referent(format!("{referent:032x}").parse::<Ref>().unwrap())
        .with_properties(properties);
    WeakDom::new(builder)
}

/// Adds an instance without children as the last child of `parent`.
///
/// Trusted: `WeakDom::insert` of a builder without children. Where the unique id
/// of the new instance is taken already, the tree gives it a fresh one, drawn
/// from the clock and from chance; a clock that is off by decades would stop it
/// there.
#[verifier::external_body]
pub(crate) fn insert_instance(
    dom: &mut WeakDom,
    parent: u128,
    referent: u128,
    class: &str,
    name: &str,
    properties: Vec<(String, Variant)>,
)
    requires
        parent != 0,
        referent != 0,
        forest(*old(dom)).instances.contains_key(parent),
        !forest(*old(dom)).instances.contains_key(referent),
        keyed::sorted(property_list(properties@)),
    ensures
        forest(*final(dom)).root == forest(*old(dom)).root,
        forest(*final(dom)).instances.dom() == forest(*old(dom)).instances.dom().insert(referent),
        forall|r: u128| #[trigger]
            forest(*old(dom)).instances.contains_key(r) && r != parent
                ==> forest(*final(dom)).instances[r] == forest(*old(dom)).instances[r],
        forest(*final(dom)).instances[parent] == (RawModel {
            children: forest(*old(dom)).instances[parent].children.push(referent),
            ..forest(*old(dom)).instances[parent]
        }),
        forest(*final(dom)).instances[referent].class == class@,
        forest(*final(dom)).instances[referent].name == name@,
        forest(*final(dom)).instances[referent].children == Seq::<u128>::empty(),
        admitted(
            map_of(property_list(properties@)),
            claimed_ids(*old(dom)),
            forest(*final(dom)).instances[referent].properties,
            claimed_ids(*final(dom)),
        ),
{
    let builder = InstanceBuilder::new(class)
        .with_name(name)
        .with_referent(format!("{referent:032x}").parse::<Ref>().unwrap())
        .with_properties(properties);
    dom.insert(format!("{parent:032x}").parse::<Ref>().unwrap(), builder);
}

/// A referent that is not nil, drawn by chance.
///
/// Trusted: `rbx_types::Ref::new` never gives the nil referent.
#[verifier::external_body]
pub(crate) fn random_referent() -> (res: u128)
    ensures
        res != 0,
{
    u128::from_str_radix(&Ref::new().to_string(), 16).unwrap()
}

/// How a property is stored: as itself, not at all, under the name of another
/// property, or as other properties that it has been moved to, with the text that
/// tells one move from another; or that it is another name of a property.
pub enum PropertyForm {
    Stored,
    Unstored,
    StoredAs(String),
    Moved(Vec<String>, String),
    Alias(String),
    Other,
}

/// The mathematical counterpart of [`PropertyForm`].
pub ghost enum FormModel {
    Stored,
    Unstored,
    StoredAs(Text),
    Moved(Seq<Text>, Text),
    Alias(Text),
    Other,
}

impl View for PropertyForm {
    type V = FormModel;

    open spec fn view(&self) -> FormModel {
        match *self {
            PropertyForm::Stored => FormModel::Stored,
            PropertyForm::Unstored => FormModel::Unstored,
            PropertyForm::StoredAs(name) => FormModel::StoredAs(name@),
            PropertyForm::Moved(names, text) => FormModel::Moved(texts(names@), text@),
            PropertyForm::Alias(name) => FormModel::Alias(name@),
            PropertyForm::Other => FormModel::Other,
        }
    }
}

/// One property of a class: the name that it is found under, the name that it has
/// itself, and how it is stored.
pub struct PropertyRecord {
    pub key: String,
    pub name: String,
    pub form: PropertyForm,
}

/// What a property is in the reflection database.
pub ghost struct PropertyModel {
    pub name: Text,
    pub form: FormModel,
}

impl View for PropertyRecord {
    type V = PropertyModel;

    open spec fn view(&self) -> PropertyModel {
        PropertyModel { name: self.name@, form: self.form@ }
    }
}

/// The views of a list of names.
pub open spec fn texts(names: Seq<String>) -> Seq<Text> {
    names.map_values(|name: String| name@)
}

/// Whether a list holds the properties of a class, in some order.
pub open spec fn lists_properties(
    list: Seq<PropertyRecord>,
    properties: Map<Text, PropertyModel>,
) -> bool {
    &&& forall|i: int|
        0 <= i < list.len() ==> properties.contains_key((#[trigger] list[i]).key@)
            && properties[list[i].key@] == list[i]@
    &&& forall|key: Text| #[trigger]
        properties.contains_key(key) ==> exists|i: int|
            0 <= i < list.len() && (#[trigger] list[i]).key@ == key
}

/// What a class is in the reflection database.
pub ghost struct ClassModel {
    pub superclass: Option<Text>,
    pub service: bool,
    pub properties: Map<Text, PropertyModel>,
    pub defaults: Map<Text, Variant>,
}

/// The classes of a reflection database by their names.
pub uninterp spec fn classes(db: ReflectionDatabase<'static>) -> Map<Seq<char>, ClassModel>;

/// The reflection database, where one can be had.
///
/// Trusted: `rbx_reflection_database::get`. Nothing is said of the result: it
/// depends on the environment and on what is on disk.
#[verifier::external_body]
pub(crate) fn load_database() -> (res: Option<&'static ReflectionDatabase<'static>>) {
    rbx_reflection_database::get().ok()
}

/// How many classes the database has.
///
/// Trusted: the length of `ReflectionDatabase::classes`.
#[verifier::external_body]
pub(crate) fn class_count(db: &ReflectionDatabase<'static>) -> (res: usize)
    ensures
        res == classes(*db).dom().len(),
{
    db.classes.len()
}

/// The names of the classes, in no particular order.
///
/// Trusted: the keys of `ReflectionDatabase::classes`.
#[verifier::external_body]
pub(crate) fn class_names(db: &ReflectionDatabase<'static>) -> (res: Vec<String>)
    ensures
        forall|class: Text| #[trigger]
            classes(*db).contains_key(class) == texts(res@).contains(class),
{
    db.classes.keys().map(|name| name.to_string()).collect()
}

/// The properties of a class, in no particular order.
///
/// Trusted: `ClassDescriptor::properties`, with `PropertyDescriptor::name`,
/// `PropertyDescriptor::kind` and `PropertyMigration::new_property_names`. The text of
/// a migration is what `Debug` shows of it, which holds all of it: two migrations are
/// equal where their texts are.
#[verifier::external_body]
pub(crate) fn class_properties(db: &ReflectionDatabase<'static>, class: &str) -> (res: Vec<
    PropertyRecord,
>)
    requires
        classes(*db).contains_key(class@),
    ensures
        lists_properties(res@, classes(*db)[class@].properties),
{
    let form = |kind: &PropertyKind| match kind {
        PropertyKind::Canonical { serialization } => match serialization {
            PropertySerialization::Serializes => PropertyForm::Stored,
            PropertySerialization::DoesNotSerialize => PropertyForm::Unstored,
            PropertySerialization::SerializesAs(n) => PropertyForm::StoredAs(n.to_string()),
            PropertySerialization::Migrate(m) => PropertyForm::Moved(m.new_property_names().iter().map(ToString::to_string).collect(), format!("{m:?}")),
            _ => PropertyForm::Other,
        },
        PropertyKind::Alias { alias_for } => PropertyForm::Alias(alias_for.to_string()),
        _ => PropertyForm::Other,
    };
    let properties = db.classes[class].properties.iter();
    properties.map(|(k, p)| PropertyRecord { key: k.to_string(), name: p.name.to_string(), form: form(&p.kind) }).collect()
}

/// The superclass of a class: nothing where the database lacks the class.
///
/// Trusted: `ReflectionDatabase::classes` and `ClassDescriptor::superclass`.
#[verifier::external_body]
pub(crate) fn superclass_of(db: &ReflectionDatabase<'static>, class: &str) -> (res: Option<
    Option<String>,
>)
    ensures
        match res {
            Some(superclass) => {
                &&& classes(*db).contains_key(class@)
                &&& match superclass {
                    Some(name) => classes(*db)[class@].superclass == Some(name@),
                    None => classes(*db)[class@].superclass is None,
                }
            },
            None => !classes(*db).contains_key(class@),
        },
{
    db.classes.get(class).map(|c| c.superclass.map(str::to_owned))
}

/// Whether a class is a service.
///
/// Trusted: `ReflectionDatabase::classes` and `ClassDescriptor::tags`.
#[verifier::external_body]
pub(crate) fn is_service_class(db: &ReflectionDatabase<'static>, class: &str) -> (res: bool)
    ensures
        res == (classes(*db).contains_key(class@) && classes(*db)[class@].service),
{
    db.classes.get(class).is_some_and(|c| c.tags.contains(&ClassTag::Service))
}

/// Whether a class itself has a property.
///
/// Trusted: `ReflectionDatabase::classes` and `ClassDescriptor::properties`.
#[verifier::external_body]
pub(crate) fn class_has_property(
    db: &ReflectionDatabase<'static>,
    class: &str,
    property: &str,
) -> (res: bool)
    ensures
        res == (classes(*db).contains_key(class@) && classes(*db)[class@].properties.contains_key(
            property@,
        )),
{
    db.classes.get(class).is_some_and(|c| c.properties.contains_key(property))
}

/// The default that a class itself gives to a property.
///
/// Trusted: `ReflectionDatabase::classes` and
/// `ClassDescriptor::default_properties`.
#[verifier::external_body]
pub(crate) fn class_default(
    db: &ReflectionDatabase<'static>,
    class: &str,
    property: &str,
) -> (res: Option<Variant>)
    ensures
        match res {
            Some(value) => {
                &&& classes(*db).contains_key(class@)
                &&& classes(*db)[class@].defaults.contains_key(property@)
                &&& classes(*db)[class@].defaults[property@] == value
            },
            None => !(classes(*db).contains_key(class@)
                && classes(*db)[class@].defaults.contains_key(property@)),
        },
{
    db.classes.get(class).and_then(|c| c.default_properties.get(property).cloned())
}

/// The outcome of reading a tree: what it holds, or the message.
pub open spec fn reading(res: Result<WeakDom, String>) -> Result<Forest, Text> {
    match res {
        Ok(dom) => Ok(forest(dom)),
        Err(message) => Err(message@),
    }
}

/// The outcome of writing a tree: the bytes, or the message.
pub open spec fn writing(res: Result<Vec<u8>, String>) -> Result<Seq<u8>, Text> {
    match res {
        Ok(bytes) => Ok(bytes@),
        Err(message) => Err(message@),
    }
}

// All four readers and writers start from the database that the process loads by itself
// and then take the one that they are given. Where the process has none, which depends on
// the environment, its error is the outcome.

/// The outcomes that reading those bytes as XML can have.
pub uninterp spec fn reads_xml(
    bytes: Seq<u8>,
    db: ReflectionDatabase<'static>,
    outcome: Result<Forest, Seq<char>>,
) -> bool;

/// The outcomes that reading those bytes as a binary file can have.
pub uninterp spec fn reads_binary(
    bytes: Seq<u8>,
    db: ReflectionDatabase<'static>,
    outcome: Result<Forest, Seq<char>>,
) -> bool;

/// The outcomes that writing those instances as XML can have.
pub uninterp spec fn writes_xml(
    tree: Forest,
    roots: Seq<u128>,
    db: ReflectionDatabase<'static>,
    outcome: Result<Seq<u8>, Seq<char>>,
) -> bool;

/// The outcomes that writing those instances as a binary file can have.
pub uninterp spec fn writes_binary(
    tree: Forest,
    roots: Seq<u128>,
    db: ReflectionDatabase<'static>,
    outcome: Result<Seq<u8>, Seq<char>>,
) -> bool;

/// Reads an XML file, unknown properties with the rest.
///
/// Trusted: `rbx_xml::from_reader`. The outcome is one of those that the bytes
/// and the database allow; the reader draws fresh referents by chance, so it is
/// not determined by them. What a file means, and which files are refused, is
/// left unsaid. The reader needs unique ids that are ASCII,
/// and a database whose classes fit together.
#[verifier::external_body]
pub(crate) fn read_xml(bytes: &[u8], db: &'static ReflectionDatabase<'static>) -> (res: Result<
    WeakDom,
    String,
>)
    requires
        markup::plain_unique_ids(markup::xml_parts(bytes@)),
        database::fits_together(classes(*db)),
    ensures
        reads_xml(bytes@, *db, reading(res)),
{
    rbx_reflection_database::get().map_err(|source| source.to_string())?;
    let options = DecodeOptions::new()
        .property_behavior(DecodePropertyBehavior::ReadUnknown)
        .reflection_database(db);
    rbx_xml::from_reader(Cursor::new(bytes), options).map_err(|source| source.to_string())
}

/// Reads a binary file.
///
/// Trusted: `rbx_binary::Deserializer::deserialize`. The outcome is one of those
/// that the bytes and the database allow; the reader draws fresh referents by
/// chance, so it is not determined by them. What a file means, and which files
/// are refused, is left unsaid. The reader needs a file whose layout is sound,
/// and a database whose classes fit together.
#[verifier::external_body]
pub(crate) fn read_binary(bytes: &[u8], db: &'static ReflectionDatabase<'static>) -> (res: Result<
    WeakDom,
    String,
>)
    requires
        chunks::sound(bytes@, classes(*db)),
        database::fits_together(classes(*db)),
    ensures
        reads_binary(bytes@, *db, reading(res)),
{
    rbx_reflection_database::get().map_err(|source| source.to_string())?;
    rbx_binary::Deserializer::new()
        .reflection_database(db)
        .deserialize(Cursor::new(bytes))
        .map_err(|source| source.to_string())
}

/// Writes instances with their descendants as XML, unknown properties with the
/// rest.
///
/// Trusted: `rbx_xml::to_writer`. The outcome is one of those that the tree, the
/// roots and the database allow. What the bytes are is left unsaid. The writer needs
/// instances that form a tree, and has no form for a content that is neither empty
/// nor a URI; it needs a database whose classes fit together.
#[verifier::external_body]
pub(crate) fn write_xml(
    dom: &WeakDom,
    roots: &Vec<u128>,
    db: &'static ReflectionDatabase<'static>,
) -> (res: Result<Vec<u8>, String>)
    requires
        outline::writable_as_xml(forest(*dom), roots@),
        database::fits_together(classes(*db)),
    ensures
        writes_xml(forest(*dom), roots@, *db, writing(res)),
{
    rbx_reflection_database::get().map_err(|source| source.to_string())?;
    let options = EncodeOptions::new()
        .property_behavior(EncodePropertyBehavior::WriteUnknown)
        .reflection_database(db);
    let refs: Vec<Ref> = roots.iter().map(|r| format!("{r:032x}").parse().unwrap()).collect();
    let mut output = Vec::new();
    rbx_xml::to_writer(&mut output, dom, &refs, options).map_err(|source| source.to_string())?;
    Ok(output)
}

/// Writes instances with their descendants as a binary file.
///
/// Trusted: `rbx_binary::Serializer::serialize`. The outcome is one of those that
/// the tree, the roots and the database allow. What the bytes are is left unsaid. The
/// writer needs instances that form a tree, without properties that were moved to ones
/// that are not stored, and a database whose classes fit together.
#[verifier::external_body]
pub(crate) fn write_binary(
    dom: &WeakDom,
    roots: &Vec<u128>,
    db: &'static ReflectionDatabase<'static>,
) -> (res: Result<Vec<u8>, String>)
    requires
        outline::writable_as_binary(forest(*dom), roots@, classes(*db)),
        database::fits_together(classes(*db)),
    ensures
        writes_binary(forest(*dom), roots@, *db, writing(res)),
{
    rbx_reflection_database::get().map_err(|source| source.to_string())?;
    let refs: Vec<Ref> = roots.iter().map(|r| format!("{r:032x}").parse().unwrap()).collect();
    let mut output = Vec::new();
    rbx_binary::Serializer::new()
        .reflection_database(db)
        .serialize(&mut output, dom, &refs)
        .map_err(|source| source.to_string())?;
    Ok(output)
}

} // verus!
