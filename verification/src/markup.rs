//! The parts that an XML file consists of, and what the reader of such a file needs
//! of them.

use vstd::prelude::*;
use xml::reader::XmlEvent;
use xml::ParserConfig;

use crate::text::{same_text, Text};

verus! {

/// One part of an XML file: the start of an element, by its name without a prefix, the
/// end of one, characters, white space between elements, or something else.
pub enum XmlPart {
    Start(String),
    End,
    Characters(String),
    Blank,
    Other,
}

/// The mathematical counterpart of [`XmlPart`].
pub ghost enum PartModel {
    Start(Text),
    End,
    Characters(Text),
    Blank,
    Other,
}

impl View for XmlPart {
    type V = PartModel;

    open spec fn view(&self) -> PartModel {
        match *self {
            XmlPart::Start(name) => PartModel::Start(name@),
            XmlPart::End => PartModel::End,
            XmlPart::Characters(text) => PartModel::Characters(text@),
            XmlPart::Blank => PartModel::Blank,
            XmlPart::Other => PartModel::Other,
        }
    }
}

/// The views of a list of parts.
pub open spec fn parts_view(parts: Seq<XmlPart>) -> Seq<PartModel> {
    parts.map_values(|part: XmlPart| part@)
}

/// The parts of those bytes as XML, up to the first error in them.
pub uninterp spec fn xml_parts(bytes: Seq<u8>) -> Seq<PartModel>;

/// Takes an XML file apart.
///
/// Trusted: `xml::ParserConfig::create_reader` and the iterator over its events, with
/// comments left out, as `rbx_xml` sets it up. The events depend on the bytes alone;
/// which they are is left unsaid.
#[verifier::external_body]
pub(crate) fn read_parts(bytes: &[u8]) -> (res: Vec<XmlPart>)
    ensures
        parts_view(res@) == xml_parts(bytes@),
{
    let reader = ParserConfig::new().ignore_comments(true).create_reader(bytes);
    let part = |event| match event {
        Ok(XmlEvent::StartElement { name, .. }) => XmlPart::Start(name.local_name),
        Ok(XmlEvent::EndElement { .. }) => XmlPart::End,
        Ok(XmlEvent::Characters(text)) => XmlPart::Characters(text),
        Ok(XmlEvent::CData(text)) => XmlPart::Characters(text),
        Ok(XmlEvent::Whitespace(_)) => XmlPart::Blank,
        _ => XmlPart::Other,
    };
    reader.into_iter().map(part).collect()
}

/// The names of the elements that are open in front of a part, the innermost last.
pub open spec fn open_elements(parts: Seq<PartModel>, i: nat) -> Seq<Text>
    decreases i,
{
    if i == 0 {
        Seq::empty()
    } else {
        let outer = open_elements(parts, (i - 1) as nat);
        match parts[i - 1] {
            PartModel::Start(name) => outer.push(name),
            PartModel::End => if outer.len() > 0 {
                outer.drop_last()
            } else {
                outer
            },
            _ => outer,
        }
    }
}

/// Whether the characters from a part on, up to the next element, are all ASCII.
pub open spec fn plain_run(parts: Seq<PartModel>, i: nat) -> bool
    decreases parts.len() - i,
{
    i < parts.len() ==> match parts[i as int] {
        PartModel::Characters(text) => vstd::utf8::is_ascii_chars(text) && plain_run(parts, i + 1),
        PartModel::Blank => plain_run(parts, i + 1),
        _ => true,
    }
}

/// Whether a unique id starts with a part: an element of that name among the
/// properties of an instance.
pub open spec fn starts_unique_id(parts: Seq<PartModel>, i: nat) -> bool {
    &&& parts[i as int] == PartModel::Start("UniqueId"@)
    &&& open_elements(parts, i).len() > 0
    &&& open_elements(parts, i).last() == "Properties"@
}

/// Whether the unique ids of an XML file are ASCII. The reader cuts the text of a unique
/// id into three by the number of bytes.
pub open spec fn plain_unique_ids(parts: Seq<PartModel>) -> bool {
    forall|i: nat|
        i < parts.len() && #[trigger] starts_unique_id(parts, i) ==> plain_run(parts, i + 1)
}

/// Whether the characters from a part on, up to the next element, are all ASCII.
fn is_plain_run(parts: &Vec<XmlPart>, start: usize) -> (res: bool)
    requires
        start <= parts.len(),
    ensures
        res == plain_run(parts_view(parts@), start as nat),
{
    let ghost view = parts_view(parts@);
    let mut i: usize = start;
    while i < parts.len()
        invariant
            start <= i <= parts.len(),
            view == parts_view(parts@),
            plain_run(view, start as nat) == plain_run(view, i as nat),
        decreases parts.len() - i,
    {
        assert(view[i as int] == parts@[i as int]@);
        match &parts[i] {
            XmlPart::Characters(text) => {
                if !text.as_str().is_ascii() {
                    return false;
                }
            },
            XmlPart::Blank => {},
            _ => {
                return true;
            },
        }
        i += 1;
    }
    true
}

/// Whether the unique ids of an XML file are ASCII.
pub fn has_plain_unique_ids(bytes: &[u8]) -> (res: bool)
    ensures
        res == plain_unique_ids(xml_parts(bytes@)),
{
    let parts = read_parts(bytes);
    let ghost view = parts_view(parts@);
    let mut open: Vec<&str> = Vec::new();
    let mut i: usize = 0;
    while i < parts.len()
        invariant
            i <= parts.len(),
            view == parts_view(parts@),
            view == xml_parts(bytes@),
            open_elements(view, i as nat) == open@.map_values(|name: &str| name@),
            forall|j: nat|
                j < i && #[trigger] starts_unique_id(view, j) ==> plain_run(view, j + 1),
        decreases parts.len() - i,
    {
        let ghost names = open@.map_values(|name: &str| name@);
        assert(view[i as int] == parts@[i as int]@);
        match &parts[i] {
            XmlPart::Start(name) => {
                if open.len() > 0 && same_text(open[open.len() - 1], "Properties") && same_text(
                    name.as_str(),
                    "UniqueId",
                ) {
                    assert(starts_unique_id(view, i as nat));
                    if !is_plain_run(&parts, i + 1) {
                        return false;
                    }
                } else {
                    assert(!starts_unique_id(view, i as nat));
                }
                open.push(name.as_str());
                assert(open@.map_values(|name: &str| name@) =~= names.push(name@));
            },
            XmlPart::End => {
                if open.len() > 0 {
                    open.pop();
                    assert(open@.map_values(|name: &str| name@) =~= names.drop_last());
                }
            },
            _ => {},
        }
        i += 1;
    }
    true
}

} // verus!
