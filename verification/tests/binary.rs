//! Binary files whose layout the reader relies on, and trees that cannot be written.

use rbx_binary::{CompressionType, Serializer};
use rbx_dom_weak::{InstanceBuilder, WeakDom};
use rbx_merge::chunks;
use rbx_merge::format::encode_file;
use rbx_merge::{
    merge_files, textconv, Error, FileFormat, FileInput, MergeReport, MergeSettings,
    TextconvOptions,
};
use rbx_types::{Content, Variant};

fn is_sound(bytes: &[u8]) -> bool {
    chunks::is_sound(bytes, rbx_reflection_database::get().expect("database"))
}

fn tree() -> WeakDom {
    WeakDom::new(InstanceBuilder::new("DataModel").with_child(
        InstanceBuilder::new("Folder").with_name("Outer").with_child(
            InstanceBuilder::new("IntValue").with_name("Inner").with_property("Value", 7_i64),
        ),
    ))
}

fn written(dom: &WeakDom, compression: CompressionType) -> Vec<u8> {
    let mut bytes = Vec::new();
    Serializer::new()
        .compression_type(compression)
        .serialize(&mut bytes, dom, dom.root().children())
        .expect("write");
    bytes
}

fn merge_as(bytes: &[u8], output: Option<FileFormat>) -> Result<MergeReport, Error> {
    let side = FileInput { bytes, path_hint: Some("model.rbxm"), format: None };
    let settings = MergeSettings { output_format: output, ..MergeSettings::default() };
    merge_files(side, side, side, settings)
}

fn refused(bytes: &[u8]) -> bool {
    let shown = textconv(bytes, Some("model.rbxm"), TextconvOptions::default());
    assert!(matches!(shown, Err(Error::Decode { .. })) != is_sound(bytes));
    matches!(
        merge_as(bytes, None),
        Err(Error::Decode { format: FileFormat::BinaryModel, message }) if message == "malformed chunk"
    )
}

fn header() -> Vec<u8> {
    let mut bytes = b"<roblox!\x89\xff\x0d\x0a\x1a\x0a\x00\x00".to_vec();
    bytes.extend([1, 0, 0, 0, 2, 0, 0, 0]);
    bytes.extend([0; 8]);
    bytes
}

fn chunk(name: &[u8; 4], data: &[u8]) -> Vec<u8> {
    let mut bytes = name.to_vec();
    bytes.extend(0_u32.to_le_bytes());
    bytes.extend((data.len() as u32).to_le_bytes());
    bytes.extend(0_u32.to_le_bytes());
    bytes.extend(data);
    bytes
}

fn interleaved(values: &[i32]) -> Vec<u8> {
    let words: Vec<[u8; 4]> =
        values.iter().map(|v| (((v << 1) ^ (v >> 31)) as u32).to_be_bytes()).collect();
    (0..4).flat_map(|place| words.iter().map(move |w| w[place]).collect::<Vec<u8>>()).collect()
}

fn referents(values: &[i32]) -> Vec<u8> {
    let mut before = 0_i32;
    let mut steps = Vec::new();
    for value in values {
        steps.push(value.wrapping_sub(before));
        before = *value;
    }
    interleaved(&steps)
}

fn text(text: &str) -> Vec<u8> {
    let mut bytes = (text.len() as u32).to_le_bytes().to_vec();
    bytes.extend(text.as_bytes());
    bytes
}

fn folders(refs: &[i32]) -> Vec<u8> {
    instances("Folder", refs)
}

fn instances(class: &str, refs: &[i32]) -> Vec<u8> {
    let mut data = 0_u32.to_le_bytes().to_vec();
    data.extend(text(class));
    data.push(0);
    data.extend((refs.len() as u32).to_le_bytes());
    data.extend(referents(refs));
    chunk(b"INST", &data)
}

fn property(name: &str, kind: u8, values: &[u8]) -> Vec<u8> {
    let mut data = 0_u32.to_le_bytes().to_vec();
    data.extend(text(name));
    data.push(kind);
    data.extend(values);
    chunk(b"PROP", &data)
}

fn parents(subjects: &[i32], above: &[i32]) -> Vec<u8> {
    let mut data = vec![0];
    data.extend((subjects.len() as u32).to_le_bytes());
    data.extend(referents(subjects));
    data.extend(referents(above));
    chunk(b"PRNT", &data)
}

fn file(parts: &[Vec<u8>]) -> Vec<u8> {
    let mut bytes = header();
    for part in parts {
        bytes.extend(part);
    }
    bytes.extend(chunk(b"END\0", b"</roblox>"));
    bytes
}

#[test]
fn files_of_every_compression_are_read() {
    for compression in [CompressionType::Lz4, CompressionType::Zstd, CompressionType::None] {
        let bytes = written(&tree(), compression);
        assert!(is_sound(&bytes));
        let merged = merge_as(&bytes, None).expect("merge").merged.expect("clean");
        assert!(is_sound(&merged));
        let shown = textconv(&merged, Some("m.rbxm"), TextconvOptions::default()).expect("show");
        assert!(shown.contains("Inner") && shown.contains("Value = Int64(7)"));
    }
}

#[test]
fn headers_that_do_not_end_in_zeros_are_refused() {
    let mut bytes = written(&tree(), CompressionType::Lz4);
    bytes[44] = 1;
    assert!(refused(&bytes));
}

#[test]
fn chunks_of_another_size_are_refused() {
    let sound = written(&tree(), CompressionType::Lz4);
    let mut larger = sound.clone();
    larger[40] += 1;
    assert!(refused(&larger));
    let mut cut = header();
    cut.extend(&chunk(b"META", &[0; 40])[..30]);
    assert!(refused(&cut));
    let mut packed = header();
    packed.extend(b"META\x02\x00\x00\x00\x04\x00\x00\x00\x00\x00\x00\x00ab");
    assert!(refused(&packed));
}

#[test]
fn files_that_the_reader_reports_are_left_to_it() {
    assert!(is_sound(b""));
    assert!(is_sound(b"<roblox!"));
    assert!(is_sound(&header()));
    let outcome = merge_as(&header(), None);
    assert!(matches!(outcome, Err(Error::Decode { message, .. }) if message != "malformed chunk"));
}

#[test]
fn files_made_by_hand_are_read() {
    let bytes = file(&[folders(&[0, 1]), parents(&[1, 0], &[0, -1])]);
    let shown = textconv(&bytes, Some("m.rbxm"), TextconvOptions::default()).expect("show");
    assert_eq!(shown.matches("Folder").count() % 2, 0);
    assert!(!refused(&bytes));
}

#[test]
fn parents_that_are_no_instances_are_refused() {
    assert!(refused(&file(&[folders(&[0, 1]), parents(&[1, 0], &[5, -1])])));
}

#[test]
fn instances_with_two_parents_or_unknown_ones_are_refused() {
    assert!(refused(&file(&[folders(&[0, 1]), parents(&[0, 1, 1], &[-1, 0, -1])])));
    assert!(refused(&file(&[folders(&[0, 1]), parents(&[0, 7], &[-1, 0])])));
}

#[test]
fn instances_that_no_root_leads_to_are_left_out() {
    for bytes in [
        file(&[folders(&[0, 1, 2]), parents(&[0, 7, 7], &[-1, 1, 1])]),
        file(&[folders(&[0, 1, 2]), parents(&[0, 1, 2], &[-1, 2, 1])]),
        file(&[folders(&[0, 1, 2]), parents(&[2, 2, 0], &[1, 1, -1])]),
    ] {
        let shown = textconv(&bytes, Some("m.rbxm"), TextconvOptions::default()).expect("show");
        assert_eq!(shown.matches("Folder \"").count(), 1, "{shown}");
    }
}

#[test]
fn contents_without_their_uris_are_refused() {
    let contents = |kinds: &[i32], uris: &[&str], rest: &[u8]| {
        let mut data = interleaved(kinds);
        data.extend((uris.len() as u32).to_le_bytes());
        for uri in uris {
            data.extend(text(uri));
        }
        data.extend(0_u32.to_le_bytes());
        data.extend(rest);
        file(&[
            folders(&[0, 1]),
            property("Picture", 0x22, &data),
            parents(&[1, 0], &[0, -1]),
        ])
    };
    let none = 0_u32.to_le_bytes();
    assert!(!refused(&contents(&[1, 0], &["rbxassetid://1"], &none)));
    assert!(refused(&contents(&[1, 1], &["rbxassetid://1"], &none)));
    assert!(refused(&contents(&[2, 0], &[], &none)));
    assert!(refused(&contents(&[0, 0], &[], &[])));
}

#[test]
fn properties_that_are_not_stored_are_skipped() {
    let with = |class: &str, name: &str, kind: u8, values: &[u8]| {
        file(&[
            instances(class, &[0, 1]),
            property(name, kind, values),
            parents(&[1, 0], &[0, -1]),
        ])
    };
    let mut none = interleaved(&[1, 1]);
    none.extend([0_u8; 12]);
    assert!(!refused(&with("Decal", "ColorMapContent", 0x22, &none)));
    assert!(refused(&with("Decal", "NormalMapOfOld", 0x22, &none)));
    assert!(refused(&with("Folder", "ColorMapContent", 0x22, &none)));
    let far = interleaved(&[i32::MIN, -1]);
    assert!(!refused(&with("Decal", "Parent", 0x13, &far)));
    assert!(refused(&with("Decal", "Link", 0x13, &far)));
}

#[test]
fn referents_beyond_their_range_are_refused() {
    let mut data = 0_u32.to_le_bytes().to_vec();
    data.extend(text("Folder"));
    data.push(0);
    data.extend(2_u32.to_le_bytes());
    data.extend(interleaved(&[i32::MAX, 1]));
    assert!(refused(&file(&[chunk(b"INST", &data)])));
    let far = interleaved(&[i32::MIN, -1]);
    assert!(refused(&file(&[folders(&[0, 1]), property("Link", 0x13, &far)])));
}

#[test]
fn a_content_that_is_an_instance_has_no_form_in_xml() {
    let target = InstanceBuilder::new("Folder").with_name("Target");
    let content = Content::from_referent(target.referent());
    let dom = WeakDom::new(
        InstanceBuilder::new("DataModel").with_child(target).with_child(
            InstanceBuilder::new("Folder")
                .with_name("Holder")
                .with_property("Picture", Variant::Content(content)),
        ),
    );
    let bytes = written(&dom, CompressionType::Lz4);
    assert!(merge_as(&bytes, None).expect("merge").merged.is_some());
    assert!(matches!(
        merge_as(&bytes, Some(FileFormat::XmlModel)),
        Err(Error::Encode { format: FileFormat::XmlModel, message })
            if message == "XML has no form for a content that is an instance"
    ));
    let plain = written(&tree(), CompressionType::Lz4);
    assert!(merge_as(&plain, Some(FileFormat::XmlModel)).expect("merge").merged.is_some());
}

#[test]
fn roots_that_are_no_instances_are_refused() {
    let db = rbx_reflection_database::get().expect("database");
    let dom = tree();
    let outcome = encode_file(&dom, &vec![42], FileFormat::BinaryModel, db);
    assert!(matches!(
        outcome,
        Err(Error::Internal(message))
            if message == format!("WeakDom child referent {:032x} did not resolve", 42)
    ));
    let none = encode_file(&dom, &Vec::new(), FileFormat::BinaryModel, db).expect("write");
    assert!(is_sound(&none));
}

#[test]
fn a_property_moved_to_one_that_is_not_stored_has_no_place_in_a_binary_file() {
    let db = rbx_reflection_database::get().expect("database");
    let dom = WeakDom::new(
        InstanceBuilder::new("DataModel").with_child(
            InstanceBuilder::new("Decal")
                .with_property("ColorMap", rbx_types::ContentId::from("rbxasset://a.png")),
        ),
    );
    let roots: Vec<u128> = dom
        .root()
        .children()
        .iter()
        .map(|r| u128::from_str_radix(&r.to_string(), 16).expect("referent"))
        .collect();
    assert!(matches!(
        encode_file(&dom, &roots, FileFormat::BinaryModel, db),
        Err(Error::Encode { format: FileFormat::BinaryModel, message })
            if message == "a property was moved to one that is not stored"
    ));
    assert!(encode_file(&dom, &roots, FileFormat::XmlModel, db).is_ok());
    assert!(encode_file(&dom, &Vec::new(), FileFormat::BinaryModel, db).is_ok());
}
