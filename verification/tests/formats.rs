//! Telling the format of a file.

use rbx_merge::{detect_format, Error, FileFormat};

#[test]
fn extension_drives_detection() {
    assert_eq!(
        FileFormat::from_extension("a/b.rbxm"),
        Some(FileFormat::BinaryModel)
    );
    assert_eq!(
        FileFormat::from_extension("a/b.rbxl"),
        Some(FileFormat::BinaryPlace)
    );
    assert_eq!(
        FileFormat::from_extension("a/b.rbxmx"),
        Some(FileFormat::XmlModel)
    );
    assert_eq!(
        FileFormat::from_extension("a/b.rbxlx"),
        Some(FileFormat::XmlPlace)
    );
    assert_eq!(FileFormat::from_extension("a/b.txt"), None);
}

#[test]
fn path_hint_wins_over_content() {
    // Binary magic, but the hint says XML place: the hint takes precedence.
    let format = detect_format(b"<roblox!", Some("model.rbxlx"), None).unwrap();
    assert_eq!(format, FileFormat::XmlPlace);
}

#[test]
fn explicit_format_overrides_everything() {
    let format = detect_format(
        b"<roblox!",
        Some("model.rbxlx"),
        Some(FileFormat::BinaryModel),
    )
    .unwrap();
    assert_eq!(format, FileFormat::BinaryModel);
}

#[test]
fn binary_magic_is_sniffed() {
    let format = detect_format(b"<roblox!\x89\xff", None, None).unwrap();
    assert_eq!(format, FileFormat::BinaryModel);
}

#[test]
fn xml_prologue_is_sniffed_after_whitespace() {
    let format = detect_format(b"  \n<?xml version=\"1.0\"?>", None, None).unwrap();
    assert_eq!(format, FileFormat::XmlModel);
}

#[test]
fn unknown_content_without_hint_errors() {
    let error = detect_format(b"not a roblox file", None, None).unwrap_err();
    assert!(matches!(error, Error::UnknownFormat { .. }));
}

#[test]
fn extensions_are_those_of_paths() {
    assert_eq!(FileFormat::from_extension(".rbxm"), None);
    assert_eq!(FileFormat::from_extension("a.rbxm/"), Some(FileFormat::BinaryModel));
    assert_eq!(FileFormat::from_extension("a.rbxm/b"), None);
    assert_eq!(FileFormat::from_extension("a.RBXM"), None);
    assert_eq!(FileFormat::from_extension(".."), None);
    assert_eq!(FileFormat::from_extension("x.tar.rbxlx"), Some(FileFormat::XmlPlace));
}

#[test]
fn bare_xml_root_is_sniffed() {
    let format = detect_format(b"\t\r\n<roblox version=\"4\">", Some("a.bin"), None).unwrap();
    assert_eq!(format, FileFormat::XmlModel);
}

#[test]
fn unknown_format_names_the_path() {
    let error = detect_format(b"?", Some("a.bin"), None).unwrap_err();
    assert_eq!(
        error.message(),
        "could not detect Roblox file format for a.bin"
    );
    let error = detect_format(b"?", None, None).unwrap_err();
    assert_eq!(error.message(), "could not detect Roblox file format");
}
