//! The text of files.

use rbx_dom_weak::{InstanceBuilder, WeakDom};
use rbx_merge::database::is_consistent;
use rbx_merge::files::usable_database;
use rbx_merge::markup::has_plain_unique_ids;
use rbx_merge::{textconv, textconv_to, Error, FileFormat, TextconvOptions};
use rbx_reflection::{
    ClassDescriptor, DataType, PropertyDescriptor, PropertyKind, PropertySerialization,
    ReflectionDatabase,
};
use rbx_types::{
    Attributes, Axes, BinaryString, BrickColor, CFrame, Color3, Color3uint8, ColorSequence,
    ColorSequenceKeypoint, ContentId, Enum, Faces, Font, Matrix3, NumberRange,
    NumberSequence, NumberSequenceKeypoint, Ray, Rect, Ref, Region3, SharedString, Tags, UDim,
    UDim2, UniqueId, Variant, Vector2, Vector2int16, Vector3, Vector3int16,
};

type Result<T> = std::result::Result<T, String>;

fn binary(dom: &WeakDom) -> Result<Vec<u8>> {
    let mut bytes = Vec::new();
    rbx_binary::to_writer(&mut bytes, dom, dom.root().children()).map_err(|e| e.to_string())?;
    Ok(bytes)
}

fn xml(dom: &WeakDom) -> Result<Vec<u8>> {
    let options = rbx_xml::EncodeOptions::new()
        .property_behavior(rbx_xml::EncodePropertyBehavior::WriteUnknown);
    let mut bytes = Vec::new();
    rbx_xml::to_writer(&mut bytes, dom, dom.root().children(), options)
        .map_err(|e| e.to_string())?;
    Ok(bytes)
}

fn show(bytes: &[u8], path: &str, options: TextconvOptions) -> Result<String> {
    textconv(bytes, Some(path), options).map_err(|e| e.message())
}

fn three_intvalues() -> WeakDom {
    let value = |name: &str, value: i64| {
        InstanceBuilder::new("IntValue").with_name(name).with_property("Value", value)
    };
    WeakDom::new(
        InstanceBuilder::new("DataModel")
            .with_child(value("Value=1337", 1337))
            .with_child(value("Value=1234567", 1234567))
            .with_child(value("Value=-1", -1)),
    )
}

fn ref_child() -> WeakDom {
    let target = InstanceBuilder::new("Folder").with_name("Ref Target");
    let referent = target.referent();
    WeakDom::new(
        InstanceBuilder::new("DataModel").with_child(
            InstanceBuilder::new("ObjectValue")
                .with_name("Value")
                .with_property("Value", Variant::Ref(referent))
                .with_child(target),
        ),
    )
}

fn attributes_model() -> WeakDom {
    let attributes = Attributes::new()
        .with("Boolean", true)
        .with("Color3", Color3::new(0.63529414, 0.0, 1.0))
        .with("Number", 12345.0_f64)
        .with("Vector3", Vector3::new(1.0, 2.0, 3.0));
    WeakDom::new(
        InstanceBuilder::new("DataModel").with_child(
            InstanceBuilder::new("Folder")
                .with_name("Folder")
                .with_property("Attributes", Variant::Attributes(attributes)),
        ),
    )
}

fn part() -> WeakDom {
    let part = InstanceBuilder::new("Part")
        .with_name("P")
        // `false` is `BasePart.Anchored`'s default → dropped.
        .with_property("Anchored", Variant::Bool(false))
        // `0.5` is not `Transparency`'s default (0.0) → kept.
        .with_property("Transparency", Variant::Float32(0.5))
        // Volatile identity metadata → dropped regardless of value.
        .with_property("UniqueId", Variant::UniqueId(UniqueId::new(1, 2, 3)));
    WeakDom::new(InstanceBuilder::new("DataModel").with_child(part))
}

/// A value of every kind that the XML format writes under any name.
fn many_values() -> WeakDom {
    let values: Vec<(&str, Variant)> = vec![
        ("ABool", Variant::Bool(true)),
        ("AString", Variant::String("two\nlines".to_owned())),
        ("AnInt32", Variant::Int32(-7)),
        ("AnInt64", Variant::Int64(1 << 40)),
        ("AFloat32", Variant::Float32(0.1)),
        ("AFloat64", Variant::Float64(1.5e300)),
        ("AnEnum", Variant::Enum(Enum::from_u32(3))),
        ("AVector2", Variant::Vector2(Vector2::new(1.0, -2.5))),
        ("AVector3", Variant::Vector3(Vector3::new(1.0, 2.0, 3.5))),
        ("AVector2int16", Variant::Vector2int16(Vector2int16::new(1, -2))),
        ("AVector3int16", Variant::Vector3int16(Vector3int16::new(1, 2, -3))),
        ("AColor3", Variant::Color3(Color3::new(0.0, 0.5, 1.0))),
        ("AColor3uint8", Variant::Color3uint8(Color3uint8::new(1, 2, 255))),
        ("AUDim", Variant::UDim(UDim::new(0.5, 3))),
        ("AUDim2", Variant::UDim2(UDim2::new(UDim::new(0.0, 1), UDim::new(1.0, -1)))),
        ("ANumberRange", Variant::NumberRange(NumberRange::new(1.0, 2.0))),
        ("ARect", Variant::Rect(Rect::new(Vector2::new(0.0, 1.0), Vector2::new(2.0, 3.0)))),
        (
            "ARay",
            Variant::Ray(Ray::new(Vector3::new(0.0, 0.0, 0.0), Vector3::new(0.0, 1.0, 0.0))),
        ),
        (
            "ACFrame",
            Variant::CFrame(CFrame::new(Vector3::new(1.0, 2.0, 3.0), Matrix3::identity())),
        ),
        (
            "ANumberSequence",
            Variant::NumberSequence(NumberSequence {
                keypoints: vec![
                    NumberSequenceKeypoint::new(0.0, 1.0, 0.0),
                    NumberSequenceKeypoint::new(1.0, 0.0, 0.25),
                ],
            }),
        ),
        (
            "AColorSequence",
            Variant::ColorSequence(ColorSequence {
                keypoints: vec![
                    ColorSequenceKeypoint::new(0.0, Color3::new(0.0, 0.0, 0.0)),
                    ColorSequenceKeypoint::new(1.0, Color3::new(1.0, 1.0, 1.0)),
                ],
            }),
        ),
        ("ABinaryString", Variant::BinaryString(BinaryString::from(vec![0_u8, 255, 7]))),
        ("ASharedString", Variant::SharedString(SharedString::new(vec![1, 2, 3]))),
        ("ABrickColor", Variant::BrickColor(BrickColor::MediumStoneGrey)),
        ("AFont", Variant::Font(Font::default())),
        ("SomeFaces", Variant::Faces(Faces::all())),
        ("SomeAxes", Variant::Axes(Axes::all())),
        ("AContentId", Variant::ContentId(ContentId::from("rbxassetid://1"))),
    ];
    let mut folder = InstanceBuilder::new("Folder").with_name("Values");
    for (name, value) in values {
        folder = folder.with_property(name, value);
    }
    WeakDom::new(InstanceBuilder::new("DataModel").with_child(folder))
}

#[test]
fn filters_default_and_volatile_properties() -> Result<()> {
    let bytes = binary(&part())?;
    let path = "part.rbxm";

    let filtered = show(&bytes, path, TextconvOptions::default())?;
    assert!(
        filtered.contains("Transparency = Float32(0.5)"),
        "non-default property should be kept:\n{filtered}"
    );
    assert!(
        !filtered.contains("Anchored"),
        "default-valued property should be dropped:\n{filtered}"
    );
    assert!(
        !filtered.contains("UniqueId"),
        "volatile UniqueId should be dropped:\n{filtered}"
    );

    // The opt-out brings every property back.
    let full = show(&bytes, path, TextconvOptions::all())?;
    assert!(
        full.contains("Anchored") && full.contains("UniqueId"),
        "all_properties should restore filtered properties:\n{full}"
    );
    Ok(())
}

#[test]
fn streaming_matches_buffered() -> Result<()> {
    let mut files: Vec<(String, Vec<u8>)> = Vec::new();
    for (name, dom) in [
        ("three-intvalues", three_intvalues()),
        ("ref-child", ref_child()),
        ("attributes", attributes_model()),
        ("part", part()),
        ("empty", WeakDom::new(InstanceBuilder::new("DataModel"))),
    ] {
        files.push((format!("models/{name}/binary.rbxm"), binary(&dom)?));
        files.push((format!("models/{name}/xml.rbxmx"), xml(&dom)?));
        files.push((format!("places/{name}/binary.rbxl"), binary(&dom)?));
        files.push((format!("places/{name}/xml.rbxlx"), xml(&dom)?));
    }
    files.push(("models/values/xml.rbxmx".to_owned(), xml(&many_values())?));
    for (path, bytes) in files {
        for options in [TextconvOptions::default(), TextconvOptions::all()] {
            let buffered = show(&bytes, &path, options)?;
            let mut streamed = Vec::new();
            textconv_to(&bytes, Some(&path), &mut streamed, options).map_err(|e| e.message())?;
            assert_eq!(
                buffered.as_bytes(),
                streamed.as_slice(),
                "streamed output diverged for {} (all_properties={})",
                path,
                options.all_properties,
            );
        }
    }
    Ok(())
}

#[test]
fn textconv_snapshots_xml_model() -> Result<()> {
    let bytes = xml(&three_intvalues())?;
    assert_eq!(
        show(&bytes, "models/three-intvalues/xml.rbxmx", TextconvOptions::all())?,
        "# rbx-merge — XML model (.rbxmx)\nDataModel\n\n  IntValue \"Value=1337\"\n    \
         Value = Int64(1337)\n\n  IntValue \"Value=1234567\"\n    Value = Int64(1234567)\n\n  \
         IntValue \"Value=-1\"\n    Value = Int64(-1)\n"
    );
    Ok(())
}

#[test]
fn textconv_snapshots_internal_refs() -> Result<()> {
    let bytes = xml(&ref_child())?;
    assert_eq!(
        show(&bytes, "models/ref-child/xml.rbxmx", TextconvOptions::all())?,
        "# rbx-merge — XML model (.rbxmx)\nDataModel\n\n  ObjectValue \"Value\"\n    \
         Value = → Value.Ref Target\n\n    Folder \"Ref Target\"\n"
    );
    Ok(())
}

#[test]
fn textconv_snapshots_binary_model() -> Result<()> {
    let bytes = binary(&attributes_model())?;
    assert_eq!(
        show(&bytes, "models/attributes/binary.rbxm", TextconvOptions::all())?,
        "# rbx-merge — binary model (.rbxm)\nDataModel\n\n  Folder \"Folder\"\n    Attributes\n      \
         Boolean = Bool(true)\n      Color3 = Color3(0.63529414, 0.0, 1.0)\n      \
         Number = Float64(12345.0)\n      Vector3 = Vector3(1.0, 2.0, 3.0)\n"
    );
    Ok(())
}

#[test]
fn textconv_prints_semantic_text() -> Result<()> {
    let model = "<roblox version=\"4\">\n  <Item class=\"IntValue\" referent=\"RBX0\">\n    \
         <Properties>\n      <string name=\"Name\">Counter</string>\n      \
         <int64 name=\"Value\">42</int64>\n    </Properties>\n  </Item>\n</roblox>\n";
    let rendered = show(model.as_bytes(), "model.rbxmx", TextconvOptions::default())?;
    assert!(rendered.contains("IntValue \"Counter\""), "got:\n{rendered}");
    assert!(rendered.contains("Value = Int64(42)"), "got:\n{rendered}");
    Ok(())
}

#[test]
fn values_are_shown_by_kind() -> Result<()> {
    let text = show(&xml(&many_values())?, "values.rbxmx", TextconvOptions::all())?;
    for line in [
        "ABool = Bool(true)",
        "AString = \"two\\nlines\"",
        "AnInt32 = Int32(-7)",
        "AnInt64 = Int64(1099511627776)",
        "AFloat32 = Float32(0.1)",
        "AFloat64 = Float64(1.5e300)",
        "AVector2 = Vector2(1.0, -2.5)",
        "AVector3 = Vector3(1.0, 2.0, 3.5)",
        "AColor3 = Color3(0.0, 0.5, 1.0)",
    ] {
        assert!(text.contains(line), "{line} is missing:\n{text}");
    }
    Ok(())
}

#[test]
fn unreadable_files_are_refused() {
    let error = textconv(b"no file", Some("a.rbxm"), TextconvOptions::all()).unwrap_err();
    assert!(matches!(error, Error::Decode { format: FileFormat::BinaryModel, .. }), "{error:?}");
    assert!(error.message().starts_with("failed to decode binary model (.rbxm): "));
    let error = textconv(b"<roblox", Some("a.rbxlx"), TextconvOptions::all()).unwrap_err();
    assert!(matches!(error, Error::Decode { format: FileFormat::XmlPlace, .. }), "{error:?}");
    let error = textconv(b"no file", None, TextconvOptions::all()).unwrap_err();
    assert!(matches!(error, Error::UnknownFormat { .. }), "{error:?}");
    let mut out = vec![1_u8];
    let error = textconv_to(b"no file", None, &mut out, TextconvOptions::all()).unwrap_err();
    assert!(matches!(error, Error::UnknownFormat { .. }), "{error:?}");
    assert_eq!(out, [1]);
}

#[test]
fn references_to_nothing_are_shown() -> Result<()> {
    let holder = InstanceBuilder::new("ObjectValue")
        .with_name("Holder")
        .with_property("Value", Variant::Ref(Ref::none()));
    let dom = WeakDom::new(InstanceBuilder::new("DataModel").with_child(holder));
    let text = show(&xml(&dom)?, "a.rbxmx", TextconvOptions::all())?;
    assert!(text.contains("Value = → nil"), "got:\n{text}");
    Ok(())
}

#[test]
fn tags_are_shown() -> Result<()> {
    let mut tags = Tags::new();
    tags.push("b");
    tags.push("a");
    let dom = WeakDom::new(
        InstanceBuilder::new("DataModel").with_child(
            InstanceBuilder::new("Folder")
                .with_name("F")
                .with_property("Tags", Variant::Tags(tags)),
        ),
    );
    let text = show(&binary(&dom)?, "a.rbxm", TextconvOptions::default())?;
    assert!(text.contains("Tags = [\"b\", \"a\"]"), "got:\n{text}");
    Ok(())
}

#[test]
fn regions_are_shown() -> Result<()> {
    let region = Region3::new(Vector3::new(0.0, 0.0, 0.0), Vector3::new(1.0, 1.0, 1.0));
    let dom = WeakDom::new(
        InstanceBuilder::new("DataModel").with_child(
            InstanceBuilder::new("Folder").with_name("F").with_property(
                "Attributes",
                Variant::Attributes(Attributes::new().with("Region", Variant::Region3(region))),
            ),
        ),
    );
    // The attribute codec writes no regions: the tree itself is shown.
    let database = rbx_reflection_database::get().map_err(|_| "no database".to_owned())?;
    let text = rbx_merge::files::show_decoded(
        &dom,
        FileFormat::BinaryModel,
        TextconvOptions::all(),
        database,
    )
    .map_err(|e| e.message())?;
    assert!(text.contains("Region = Region3(0.0, 0.0, 0.0 | 1.0, 1.0, 1.0)"), "got:\n{text}");
    Ok(())
}

fn with_unique_id(element: &str) -> String {
    format!(
        "<roblox version=\"4\"><Item class=\"Folder\" referent=\"a\"><Properties>\
         <string name=\"Name\">F\u{e9}</string>{element}</Properties></Item></roblox>"
    )
}

#[test]
fn unique_ids_that_are_not_ascii_are_refused() -> Result<()> {
    let digits = "0123456789abcde";
    let across = format!("{digits}\u{e9}{digits}");
    assert_eq!(across.len(), 32);
    for element in [
        format!("<UniqueId name=\"UniqueId\">{across}</UniqueId>"),
        format!("<UniqueId name=\"UniqueId\"><![CDATA[{across}]]></UniqueId>"),
        format!("<UniqueId name=\"UniqueId\">{digits}<!-- -->\u{e9}{digits}</UniqueId>"),
        format!("<UniqueId name=\"UniqueId\">{digits}&#233;{digits}</UniqueId>"),
        format!("<x:UniqueId xmlns:x=\"y\" name=\"UniqueId\">{across}</x:UniqueId>"),
    ] {
        let file = with_unique_id(&element);
        assert!(!has_plain_unique_ids(file.as_bytes()), "{element}");
        let outcome = textconv(file.as_bytes(), Some("a.rbxmx"), TextconvOptions::all());
        assert!(
            matches!(
                outcome,
                Err(Error::Decode { format: FileFormat::XmlModel, message })
                    if message == "malformed unique id"
            ),
            "{element}"
        );
    }
    Ok(())
}

#[test]
fn other_text_beside_unique_ids_is_left_alone() -> Result<()> {
    let id = "0123456789abcdef0123456789abcdef";
    for element in [
        format!("<UniqueId name=\"UniqueId\">{id}</UniqueId>"),
        format!("<UniqueId name=\"UniqueId\"><!-- \u{e9} -->{id}</UniqueId>"),
        format!("<string name=\"Other\">{id}\u{e9}</string>"),
    ] {
        let file = with_unique_id(&element);
        assert!(has_plain_unique_ids(file.as_bytes()), "{element}");
        let text = show(file.as_bytes(), "a.rbxmx", TextconvOptions::all())?;
        assert!(text.contains("F\u{e9}"), "{text}");
    }
    let elsewhere = "<roblox version=\"4\"><UniqueId>\u{e9}</UniqueId></roblox>";
    assert!(has_plain_unique_ids(elsewhere.as_bytes()));
    Ok(())
}

#[test]
fn the_reflection_database_is_consistent() {
    let db = rbx_reflection_database::get().expect("database");
    assert!(is_consistent(db));
    assert!(usable_database().is_ok());
}

fn database(
    classes: &[(&'static str, Option<&'static str>)],
    properties: &[(&'static str, PropertyKind<'static>)],
) -> ReflectionDatabase<'static> {
    let mut db = ReflectionDatabase::new();
    for (name, superclass) in classes {
        let mut class = ClassDescriptor::new(*name);
        class.superclass = *superclass;
        for (name, kind) in properties {
            let mut property =
                PropertyDescriptor::new(*name, DataType::Value(rbx_types::VariantType::Bool));
            property.kind = kind.clone();
            class.properties.insert(*name, property);
        }
        db.classes.insert(*name, class);
    }
    db
}

fn stored(serialization: PropertySerialization<'static>) -> PropertyKind<'static> {
    PropertyKind::Canonical { serialization }
}

#[test]
fn classes_that_do_not_fit_together_are_found() {
    let plain = [
        ("A", stored(PropertySerialization::Serializes)),
        ("B", stored(PropertySerialization::SerializesAs("A"))),
        ("C", PropertyKind::Alias { alias_for: "A" }),
        ("D", stored(PropertySerialization::DoesNotSerialize)),
    ];
    assert!(is_consistent(&database(&[], &[])));
    assert!(is_consistent(&database(&[("Low", Some("High")), ("High", None)], &plain)));
    assert!(!is_consistent(&database(&[("Low", Some("High"))], &plain)));
    assert!(!is_consistent(&database(&[("Low", Some("High")), ("High", Some("Low"))], &plain)));
    let unknown = [("B", stored(PropertySerialization::SerializesAs("A")))];
    assert!(!is_consistent(&database(&[("Low", None)], &unknown)));
    let nameless = [("C", PropertyKind::Alias { alias_for: "A" })];
    assert!(!is_consistent(&database(&[("Low", None)], &nameless)));
}
