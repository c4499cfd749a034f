//! File formats: how one is told from the extension of a path or from the
//! first bytes of a file, and how a file is read and written in it.

use rbx_dom_weak::WeakDom;
use rbx_reflection::ReflectionDatabase;
use vstd::prelude::*;

use crate::chunks;
use crate::chunks::is_sound;
use crate::database;
use crate::dom;
use crate::dom::{read_binary, read_xml, write_binary, write_xml};
use crate::error;
use crate::error::{Error, ErrorModel};
use crate::markup;
use crate::markup::has_plain_unique_ids;
use crate::outline;
use crate::outline::{find_unresolved, finds_homeless_property, finds_linked_content};
use crate::semantic;
use crate::semantic::{link_error, DomModel, SemanticDom};
use crate::text;
use crate::text::{chars_of, Text};

verus! {

/// A Roblox file format: model or place, binary or XML.
#[derive(Debug, Clone, Copy, PartialEq, Eq, Hash, Structural)]
pub enum FileFormat {
    BinaryModel,
    BinaryPlace,
    XmlModel,
    XmlPlace,
}

/// Where `c` last occurs in `s`; minus one where it does not occur.
pub open spec fn last_index(s: Text, c: char) -> int
    decreases s.len(),
{
    if s.len() == 0 {
        -1
    } else if s.last() == c {
        s.len() - 1
    } else {
        last_index(s.drop_last(), c)
    }
}

proof fn lemma_last_index(s: Text, c: char)
    ensures
        -1 <= last_index(s, c) < s.len(),
        last_index(s, c) >= 0 ==> s[last_index(s, c)] == c,
        forall|j: int| last_index(s, c) < j < s.len() ==> s[j] != c,
    decreases s.len(),
{
    if s.len() > 0 && s.last() != c {
        lemma_last_index(s.drop_last(), c);
        assert forall|j: int| last_index(s, c) < j < s.len() implies s[j] != c by {
            if j < s.len() - 1 {
                assert(s.drop_last()[j] == s[j]);
            }
        }
    }
}

proof fn lemma_last_index_unique(s: Text, c: char, i: int)
    requires
        -1 <= i < s.len(),
        i >= 0 ==> s[i] == c,
        forall|j: int| i < j < s.len() ==> s[j] != c,
    ensures
        last_index(s, c) == i,
{
    lemma_last_index(s, c);
}

/// The file name at the end of a path: empty and `.` components do not count,
/// and a path that ends in `..` has none.
pub open spec fn file_name(path: Text) -> Option<Text>
    decreases path.len(),
{
    let cut = last_index(path, '/');
    let component = path.skip(cut + 1);
    if path.len() == 0 {
        None
    } else if component.len() == 0 || component == seq!['.'] {
        if 0 <= cut < path.len() {
            file_name(path.take(cut))
        } else {
            None
        }
    } else if component == seq!['.', '.'] {
        None
    } else {
        Some(component)
    }
}

/// What follows the last dot of the file name, where a dot stands anywhere but
/// in front.
pub open spec fn extension(path: Text) -> Option<Text> {
    match file_name(path) {
        None => None,
        Some(name) => {
            let dot = last_index(name, '.');
            if dot <= 0 {
                None
            } else {
                Some(name.skip(dot + 1))
            }
        },
    }
}

/// The last place before `end` where `c` stands.
fn find_last(chars: &Vec<char>, start: usize, end: usize, c: char) -> (res: Option<usize>)
    requires
        start <= end <= chars.len(),
    ensures
        match res {
            Some(i) => start <= i < end && last_index(
                chars@.subrange(start as int, end as int),
                c,
            ) == i - start,
            None => last_index(chars@.subrange(start as int, end as int), c) == -1,
        },
{
    let ghost part = chars@.subrange(start as int, end as int);
    let mut i: usize = end;
    while i > start
        invariant
            start <= i <= end <= chars.len(),
            part == chars@.subrange(start as int, end as int),
            forall|j: int| i - start <= j < part.len() ==> part[j] != c,
        decreases i,
    {
        i -= 1;
        assert(part[i - start] == chars@[i as int]);
        if chars[i] == c {
            proof {
                lemma_last_index_unique(part, c, i - start);
            }
            return Some(i);
        }
    }
    proof {
        lemma_last_index_unique(part, c, -1);
    }
    None
}

/// The place of the file name at the end of a path.
fn find_file_name(chars: &Vec<char>) -> (res: Option<(usize, usize)>)
    ensures
        match res {
            Some((start, end)) => start <= end <= chars.len() && file_name(chars@) == Some(
                chars@.subrange(start as int, end as int),
            ),
            None => file_name(chars@) is None,
        },
{
    let mut end: usize = chars.len();
    assert(chars@.subrange(0, end as int) =~= chars@);
    while end > 0
        invariant
            end <= chars.len(),
            file_name(chars@.subrange(0, end as int)) == file_name(chars@),
        decreases end,
    {
        let ghost path = chars@.subrange(0, end as int);
        let slash = find_last(chars, 0, end, '/');
        let start: usize = match slash {
            Some(i) => i + 1,
            None => 0,
        };
        let ghost cut = last_index(path, '/');
        let ghost component = path.skip(cut + 1);
        assert(component =~= chars@.subrange(start as int, end as int));
        if start == end || (end - start == 1 && chars[start] == '.') {
            proof {
                if end - start == 1 {
                    assert(component =~= seq!['.']);
                }
            }
            match slash {
                Some(i) => {
                    assert(path.take(cut) =~= chars@.subrange(0, i as int));
                    end = i;
                },
                None => {
                    return None;
                },
            }
        } else if end - start == 2 && chars[start] == '.' && chars[start + 1] == '.' {
            assert(component =~= seq!['.', '.']);
            assert(component != seq!['.']);
            return None;
        } else {
            proof {
                if component == seq!['.'] {
                    assert(component[0] == '.');
                }
                if component == seq!['.', '.'] {
                    assert(component[0] == '.' && component[1] == '.');
                }
            }
            return Some((start, end));
        }
    }
    None
}

/// The format that an extension stands for.
pub open spec fn extension_format(ext: Option<Text>) -> Option<FileFormat> {
    if ext == Some("rbxm"@) {
        Some(FileFormat::BinaryModel)
    } else if ext == Some("rbxl"@) {
        Some(FileFormat::BinaryPlace)
    } else if ext == Some("rbxmx"@) {
        Some(FileFormat::XmlModel)
    } else if ext == Some("rbxlx"@) {
        Some(FileFormat::XmlPlace)
    } else {
        None
    }
}

/// What the message calls a format.
pub open spec fn format_label(format: FileFormat) -> Text {
    match format {
        FileFormat::BinaryModel => "binary model (.rbxm)"@,
        FileFormat::BinaryPlace => "binary place (.rbxl)"@,
        FileFormat::XmlModel => "XML model (.rbxmx)"@,
        FileFormat::XmlPlace => "XML place (.rbxlx)"@,
    }
}

impl FileFormat {
    /// The format that the extension of a path stands for.
    pub fn from_extension(path: &str) -> (res: Option<Self>)
        ensures
            res == extension_format(extension(path@)),
    {
        let chars = chars_of(path);
        let (start, end): (usize, usize) = match find_file_name(&chars) {
            None => {
                return None;
            },
            Some(place) => place,
        };
        let ghost name = chars@.subrange(start as int, end as int);
        let dot: usize = match find_last(&chars, start, end, '.') {
            None => {
                return None;
            },
            Some(i) => i,
        };
        if dot == start {
            return None;
        }
        let mut rest: Vec<char> = Vec::new();
        let mut i: usize = dot + 1;
        while i < end
            invariant
                dot + 1 <= i <= end <= chars.len(),
                rest@ == chars@.subrange(dot + 1, i as int),
            decreases end - i,
        {
            rest.push(chars[i]);
            i += 1;
        }
        assert(rest@ =~= name.skip(last_index(name, '.') + 1));
        let ext = text::string_of(&rest);
        if ext == "rbxm".to_owned() {
            Some(FileFormat::BinaryModel)
        } else if ext == "rbxl".to_owned() {
            Some(FileFormat::BinaryPlace)
        } else if ext == "rbxmx".to_owned() {
            Some(FileFormat::XmlModel)
        } else if ext == "rbxlx".to_owned() {
            Some(FileFormat::XmlPlace)
        } else {
            None
        }
    }

    /// Whether the format is one of the XML formats.
    pub open spec fn xml(self) -> bool {
        self is XmlModel || self is XmlPlace
    }

    fn is_xml(self) -> (res: bool)
        ensures
            res == self.xml(),
    {
        match self {
            FileFormat::XmlModel => true,
            FileFormat::XmlPlace => true,
            _ => false,
        }
    }

    /// The name of the format in messages.
    pub fn label(self) -> (res: &'static str)
        ensures
            res@ == format_label(self),
    {
        match self {
            FileFormat::BinaryModel => "binary model (.rbxm)",
            FileFormat::BinaryPlace => "binary place (.rbxl)",
            FileFormat::XmlModel => "XML model (.rbxmx)",
            FileFormat::XmlPlace => "XML place (.rbxlx)",
        }
    }
}

/// `<roblox!`
pub open spec fn binary_magic() -> Seq<u8> {
    seq![60u8, 114, 111, 98, 108, 111, 120, 33]
}

/// `<?xml`
pub open spec fn xml_declaration() -> Seq<u8> {
    seq![60u8, 63, 120, 109, 108]
}

/// `<roblox`
pub open spec fn xml_root() -> Seq<u8> {
    seq![60u8, 114, 111, 98, 108, 111, 120]
}

pub open spec fn is_ascii_space(b: u8) -> bool {
    b == 32 || b == 9 || b == 10 || b == 12 || b == 13
}

/// The bytes from the first on that is no ASCII whitespace.
pub open spec fn trimmed(bytes: Seq<u8>) -> Seq<u8>
    decreases bytes.len(),
{
    if bytes.len() > 0 && is_ascii_space(bytes[0]) {
        trimmed(bytes.drop_first())
    } else {
        bytes
    }
}

/// Which format a file is in: the explicit format, else what the extension of
/// the path says, else what the bytes start with.
pub open spec fn detected_format(
    bytes: Seq<u8>,
    path_hint: Option<Text>,
    explicit: Option<FileFormat>,
) -> Option<FileFormat> {
    if explicit is Some {
        explicit
    } else if path_hint is Some && extension_format(extension(path_hint->0)) is Some {
        extension_format(extension(path_hint->0))
    } else if binary_magic().is_prefix_of(bytes) {
        Some(FileFormat::BinaryModel)
    } else if xml_declaration().is_prefix_of(trimmed(bytes)) || xml_root().is_prefix_of(
        trimmed(bytes),
    ) {
        Some(FileFormat::XmlModel)
    } else {
        None
    }
}

/// The view of an optional path.
pub open spec fn path_view(path: Option<&str>) -> Option<Text> {
    match path {
        Some(p) => Some(p@),
        None => None,
    }
}

fn starts_with(bytes: &[u8], from: usize, prefix: &Vec<u8>) -> (res: bool)
    requires
        from <= bytes.len(),
    ensures
        res == prefix@.is_prefix_of(bytes@.skip(from as int)),
{
    let ghost rest = bytes@.skip(from as int);
    if bytes.len() - from < prefix.len() {
        return false;
    }
    let mut i: usize = 0;
    while i < prefix.len()
        invariant
            i <= prefix.len() <= bytes.len() - from,
            rest == bytes@.skip(from as int),
            forall|j: int| 0 <= j < i ==> prefix@[j] == rest[j],
        decreases prefix.len() - i,
    {
        if bytes[from + i] != prefix[i] {
            assert(rest[i as int] != prefix@[i as int]);
            assert(!prefix@.is_prefix_of(rest)) by {
                if prefix@.is_prefix_of(rest) {
                    assert(prefix@[i as int] == rest.subrange(0, prefix@.len() as int)[i as int]);
                }
            }
            return false;
        }
        i += 1;
    }
    assert(prefix@ =~= rest.subrange(0, prefix@.len() as int));
    true
}

/// Where the first byte stands that is no ASCII whitespace.
fn trim_ascii_whitespace_start(bytes: &[u8]) -> (res: usize)
    ensures
        res <= bytes.len(),
        bytes@.skip(res as int) == trimmed(bytes@),
{
    let mut i: usize = 0;
    assert(bytes@.skip(0) =~= bytes@);
    while i < bytes.len() && (bytes[i] == 32 || bytes[i] == 9 || bytes[i] == 10 || bytes[i] == 12
        || bytes[i] == 13)
        invariant
            i <= bytes.len(),
            trimmed(bytes@.skip(i as int)) == trimmed(bytes@),
        decreases bytes.len() - i,
    {
        assert(bytes@.skip(i as int)[0] == bytes@[i as int]);
        assert(bytes@.skip(i as int).drop_first() =~= bytes@.skip(i + 1));
        i += 1;
    }
    proof {
        if i < bytes.len() {
            assert(bytes@.skip(i as int)[0] == bytes@[i as int]);
        }
    }
    i
}

/// Tells the format of a file.
pub fn detect_format(
    bytes: &[u8],
    path_hint: Option<&str>,
    explicit: Option<FileFormat>,
) -> (res: Result<FileFormat, Error>)
    ensures
        match detected_format(bytes@, path_view(path_hint), explicit) {
            Some(format) => res == Ok::<FileFormat, Error>(format),
            None => res is Err && res->Err_0@ == error::unknown_format(path_view(path_hint)),
        },
{
    if let Some(format) = explicit {
        return Ok(format);
    }
    if let Some(path) = path_hint {
        if let Some(format) = FileFormat::from_extension(path) {
            return Ok(format);
        }
    }
    let magic: Vec<u8> = vec![60u8, 114, 111, 98, 108, 111, 120, 33];
    assert(magic@ =~= binary_magic());
    assert(bytes@.skip(0) =~= bytes@);
    if starts_with(bytes, 0, &magic) {
        return Ok(FileFormat::BinaryModel);
    }
    let start: usize = trim_ascii_whitespace_start(bytes);
    let declaration: Vec<u8> = vec![60u8, 63, 120, 109, 108];
    assert(declaration@ =~= xml_declaration());
    let element: Vec<u8> = vec![60u8, 114, 111, 98, 108, 111, 120];
    assert(element@ =~= xml_root());
    if starts_with(bytes, start, &declaration) || starts_with(bytes, start, &element) {
        return Ok(FileFormat::XmlModel);
    }
    let mut path = String::new();
    if let Some(hint) = path_hint {
        path.append(" for ");
        path.append(hint);
        assert(path@ =~= " for "@ + hint@);
    }
    Err(Error::UnknownFormat { path })
}

/// The outcomes that reading a file in a format can have. A file that lacks what its
/// reader relies on is refused: an XML file whose unique ids are not ASCII, and a binary
/// file whose layout is not sound.
pub open spec fn reads(
    format: FileFormat,
    bytes: Seq<u8>,
    db: ReflectionDatabase<'static>,
    outcome: Result<dom::Forest, Text>,
) -> bool {
    if format.xml() {
        if markup::plain_unique_ids(markup::xml_parts(bytes)) {
            dom::reads_xml(bytes, db, outcome)
        } else {
            outcome == Err::<dom::Forest, Text>("malformed unique id"@)
        }
    } else {
        if chunks::sound(bytes, dom::classes(db)) {
            dom::reads_binary(bytes, db, outcome)
        } else {
            outcome == Err::<dom::Forest, Text>("malformed chunk"@)
        }
    }
}

/// The outcomes that writing a tree in a format can have.
pub open spec fn writes(
    format: FileFormat,
    tree: dom::Forest,
    roots: Seq<u128>,
    db: ReflectionDatabase<'static>,
    outcome: Result<Seq<u8>, Text>,
) -> bool {
    if format.xml() {
        dom::writes_xml(tree, roots, db, outcome)
    } else {
        dom::writes_binary(tree, roots, db, outcome)
    }
}

/// A file that was read, with the format that it was read in.
pub struct DecodedFile {
    pub format: FileFormat,
    pub dom: WeakDom,
}

/// Tells a file's format and reads it, with a database whose classes fit together.
pub fn decode_file(
    bytes: &[u8],
    path_hint: Option<&str>,
    explicit: Option<FileFormat>,
    db: &'static ReflectionDatabase<'static>,
) -> (res: Result<DecodedFile, Error>)
    requires
        database::fits_together(dom::classes(*db)),
    ensures
        match (detected_format(bytes@, path_view(path_hint), explicit), res) {
            (None, res) => res is Err && res->Err_0@ == error::unknown_format(path_view(path_hint)),
            (Some(format), Ok(file)) => file.format == format && reads(
                format,
                bytes@,
                *db,
                Ok(dom::forest(file.dom)),
            ),
            (Some(format), Err(e)) => e@ matches ErrorModel::Decode(f, message) && f
                == format && reads(format, bytes@, *db, Err(message)),
        },
{
    let format = match detect_format(bytes, path_hint, explicit) {
        Ok(format) => format,
        Err(e) => {
            return Err(e);
        },
    };
    let outcome = if format.is_xml() {
        if has_plain_unique_ids(bytes) {
            read_xml(bytes, db)
        } else {
            Err("malformed unique id".to_owned())
        }
    } else if !is_sound(bytes, db) {
        Err("malformed chunk".to_owned())
    } else {
        read_binary(bytes, db)
    };
    match outcome {
        Ok(dom) => Ok(DecodedFile { format, dom }),
        Err(message) => Err(Error::Decode { format, message }),
    }
}

/// The error about a content that cannot be written as XML.
pub open spec fn linked_content(format: FileFormat) -> ErrorModel {
    ErrorModel::Encode(format, "XML has no form for a content that is an instance"@)
}

/// The error about a property that a binary file has no place for.
pub open spec fn homeless_property(format: FileFormat) -> ErrorModel {
    ErrorModel::Encode(format, "a property was moved to one that is not stored"@)
}

/// What comes of writing a tree whose instances are those of `d`.
pub open spec fn dom_encoded(
    d: DomModel,
    tree: dom::Forest,
    roots: Seq<u128>,
    format: FileFormat,
    db: ReflectionDatabase<'static>,
    outcome: Result<Seq<u8>, ErrorModel>,
) -> bool {
    if !outline::resolves(d, roots) {
        exists|i: int|
            0 <= i < roots.len() && semantic::node_of_ref(d, #[trigger] roots[i]) is None
                && outline::resolves(d, roots.take(i)) && outcome == Err::<Seq<u8>, ErrorModel>(
                semantic::unresolved(roots[i]),
            )
    } else if format.xml() && outline::has_linked_content(d, roots) {
        outcome == Err::<Seq<u8>, ErrorModel>(linked_content(format))
    } else if !format.xml() && outline::has_homeless_property(d, roots, dom::classes(db)) {
        outcome == Err::<Seq<u8>, ErrorModel>(homeless_property(format))
    } else {
        match outcome {
            Ok(bytes) => writes(format, tree, roots, db, Ok(bytes)),
            Err(e) => e matches ErrorModel::Encode(f, message) && f == format && writes(
                format,
                tree,
                roots,
                db,
                Err(message),
            ),
        }
    }
}

/// What comes of writing a tree: the error about its links, where they are not those
/// of a tree, else what comes of its instances.
pub open spec fn encoded(
    tree: dom::Forest,
    roots: Seq<u128>,
    format: FileFormat,
    db: ReflectionDatabase<'static>,
    outcome: Result<Seq<u8>, ErrorModel>,
) -> bool {
    ||| outcome is Err && semantic::link_failure(tree, outcome->Err_0)
    ||| exists|d: DomModel| #[trigger]
        semantic::represents(d, tree) && dom_encoded(d, tree, roots, format, db, outcome)
}

/// The view of what comes of writing a tree.
pub open spec fn encoding(res: Result<Vec<u8>, Error>) -> Result<Seq<u8>, ErrorModel> {
    match res {
        Ok(bytes) => Ok(bytes@),
        Err(e) => Err(e@),
    }
}

/// Writes the instances `roots` with their descendants, with a database whose classes fit
/// together.
pub fn encode_file(
    dom: &WeakDom,
    roots: &Vec<u128>,
    format: FileFormat,
    db: &'static ReflectionDatabase<'static>,
) -> (res: Result<Vec<u8>, Error>)
    requires
        database::fits_together(dom::classes(*db)),
    ensures
        encoded(dom::forest(*dom), roots@, format, *db, encoding(res)),
{
    let instances = match SemanticDom::from_weak_dom(dom) {
        Ok(d) => d,
        Err(e) => {
            return Err(e);
        },
    };
    if let Some(root) = find_unresolved(&instances, roots) {
        let e = link_error(root);
        assert(dom_encoded(instances@, dom::forest(*dom), roots@, format, *db, Err(e@))) by {
            let i = choose|i: int|
                0 <= i < roots@.len() && #[trigger] roots@[i] == root && semantic::node_of_ref(
                    instances@,
                    root,
                ) is None && outline::resolves(instances@, roots@.take(i));
            assert(semantic::node_of_ref(instances@, roots@[i]) is None);
        }
        return Err(e);
    }
    if format.is_xml() && finds_linked_content(&instances, roots) {
        return Err(
            Error::Encode {
                format,
                message: "XML has no form for a content that is an instance".to_owned(),
            },
        );
    }
    if !format.is_xml() && finds_homeless_property(&instances, roots, db) {
        return Err(
            Error::Encode {
                format,
                message: "a property was moved to one that is not stored".to_owned(),
            },
        );
    }
    let outcome = if format.is_xml() {
        write_xml(dom, roots, db)
    } else {
        write_binary(dom, roots, db)
    };
    match outcome {
        Ok(bytes) => Ok(bytes),
        Err(message) => Err(Error::Encode { format, message }),
    }
}

} // verus!
