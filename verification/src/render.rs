//! The text of a file that diffs are made of: a tree of instances by indentation
//! alone, with their properties beneath them.

use rbx_reflection::ReflectionDatabase;
use vstd::prelude::*;

use crate::display;
use crate::display::display_value;
use crate::dom;
use crate::format::FileFormat;
use crate::keyed;
use crate::matching;
use crate::matching::Classes;
use crate::reflection;
use crate::reflection::is_default_value;
use crate::semantic::{DomModel, InstanceModel, SemanticDom, SemanticInstance};
use crate::text;
use crate::text::{quote, same_text, Text};
use crate::value;
use crate::value::{Value, ValueModel};

verus! {

/// What a text shows of a file.
#[derive(Debug, Clone, Copy, PartialEq, Eq, Structural)]
pub struct TextconvOptions {
    /// Whether unique ids and properties at their defaults are shown too.
    pub all_properties: bool,
}

impl Default for TextconvOptions {
    fn default() -> (res: Self)
        ensures
            !res.all_properties,
    {
        TextconvOptions { all_properties: false }
    }
}

impl TextconvOptions {
    /// Shows every property.
    pub fn all() -> (res: Self)
        ensures
            res.all_properties,
    {
        TextconvOptions { all_properties: true }
    }
}

/// What the text of a file depends on, besides the file.
pub ghost struct Style {
    pub classes: Classes,
    pub all_properties: bool,
}

/// So many levels of indentation.
pub open spec fn indent(depth: nat) -> Text
    decreases depth,
{
    if depth == 0 {
        Seq::empty()
    } else {
        indent((depth - 1) as nat) + "  "@
    }
}

/// Whether a property is left out: a unique id, or a value at its default.
pub open spec fn is_noise(classes: Classes, class: Text, key: Text, v: ValueModel) -> bool {
    key == dom::unique_id_key() || reflection::default_value(classes, class, key, v)
}

pub open spec fn is_shown(style: Style, class: Text, key: Text, v: ValueModel) -> bool {
    style.all_properties || !is_noise(style.classes, class, key, v)
}

/// One line of a property.
pub open spec fn value_line(d: DomModel, depth: nat, key: Text, v: ValueModel) -> Text {
    indent(depth) + key + " = "@ + display::value_text(Some(d), v) + "\n"@
}

/// The lines of the entries of an attribute map.
pub open spec fn entry_lines(d: DomModel, depth: nat, list: Seq<(Text, ValueModel)>) -> Text
    decreases list.len(),
{
    if list.len() == 0 {
        Seq::empty()
    } else {
        entry_lines(d, depth, list.drop_last()) + value_line(
            d,
            depth,
            list.last().0,
            list.last().1,
        )
    }
}

/// The lines of a property of an instance at some depth. The entries of an
/// attribute map stand on lines of their own.
pub open spec fn property_lines(d: DomModel, depth: nat, key: Text, v: ValueModel) -> Text {
    match v {
        ValueModel::Attributes(list) => if list.len() == 0 {
            indent(depth + 1) + key + " = {}\n"@
        } else {
            indent(depth + 1) + key + "\n"@ + entry_lines(d, depth + 2, list)
        },
        _ => value_line(d, depth + 1, key, v),
    }
}

/// The lines of the first `n` properties of an instance.
pub open spec fn properties_lines(
    d: DomModel,
    style: Style,
    node: InstanceModel,
    depth: nat,
    n: int,
) -> Text
    decreases n,
{
    if n <= 0 {
        Seq::empty()
    } else {
        let so_far = properties_lines(d, style, node, depth, n - 1);
        let (key, v) = node.properties[n - 1];
        if is_shown(style, node.class, key, v) {
            so_far + property_lines(d, depth, key, v)
        } else {
            so_far
        }
    }
}

/// The line that an instance starts with, after an empty one: its class and its
/// name. Of the root it is the class alone.
pub open spec fn header_lines(node: InstanceModel, depth: nat) -> Text {
    if depth == 0 {
        node.class + "\n"@
    } else {
        "\n"@ + indent(depth) + node.class + " "@ + text::quoted(node.name) + "\n"@
    }
}

/// The lines of an instance, without its descendants.
pub open spec fn node_lines(d: DomModel, style: Style, node: InstanceModel, depth: nat) -> Text {
    header_lines(node, depth) + properties_lines(
        d,
        style,
        node,
        depth,
        node.properties.len() as int,
    )
}

/// The lines of an instance and of its descendants.
pub open spec fn subtree_text(d: DomModel, style: Style, id: int, depth: nat) -> Text
    decreases d.len() - id, 1int, 0int,
{
    node_lines(d, style, d[id], depth) + children_text(
        d,
        style,
        id,
        depth,
        d[id].children.len() as int,
    )
}

/// The lines of the first `n` children of an instance and of their descendants.
pub open spec fn children_text(d: DomModel, style: Style, id: int, depth: nat, n: int) -> Text
    decreases d.len() - id, 0int, n,
{
    if n <= 0 {
        Seq::empty()
    } else {
        let so_far = children_text(d, style, id, depth, n - 1);
        let child = d[id].children[n - 1] as int;
        if id < child < d.len() {
            so_far + subtree_text(d, style, child, depth + 1)
        } else {
            so_far
        }
    }
}

/// The first line of the text.
pub open spec fn title(format: FileFormat) -> Text {
    "# rbx-merge — "@ + crate::format::format_label(format) + "\n"@
}

/// The text of a file.
pub open spec fn file_text(d: DomModel, format: FileFormat, style: Style) -> Text {
    title(format) + subtree_text(d, style, 0, 0)
}

// ---------------------------------------------------------------------------
// Writing the text
// ---------------------------------------------------------------------------

/// What the text of a file is written with.
pub struct Renderer<'a> {
    pub dom: &'a SemanticDom,
    pub db: &'a ReflectionDatabase<'static>,
    pub options: TextconvOptions,
}

impl<'a> Renderer<'a> {
    pub open spec fn style(&self) -> Style {
        Style { classes: dom::classes(*self.db), all_properties: self.options.all_properties }
    }
}

fn push_indent(out: &mut String, depth: usize)
    ensures
        final(out)@ == old(out)@ + indent(depth as nat),
{
    let ghost before = out@;
    let mut i: usize = 0;
    assert(before + indent(0) =~= before);
    while i < depth
        invariant
            i <= depth,
            out@ == before + indent(i as nat),
        decreases depth - i,
    {
        out.append("  ");
        assert((before + indent(i as nat)) + "  "@ =~= before + indent((i + 1) as nat));
        i += 1;
    }
}

/// Whether a property is left out.
pub fn is_noise_property(
    db: &ReflectionDatabase<'static>,
    class: &str,
    key: &str,
    v: &Value,
) -> (res: bool)
    ensures
        res == is_noise(dom::classes(*db), class@, key@, v@),
{
    same_text(key, "UniqueId") || is_default_value(db, class, key, v)
}

/// Writes what stands on the line of a property behind the indentation.
fn push_value(dom: &SemanticDom, key: &str, v: &Value, out: &mut String)
    requires
        dom.wf(),
    ensures
        final(out)@ == old(out)@ + key@ + " = "@ + display::value_text(Some(dom@), v@) + "\n"@,
{
    out.append(key);
    out.append(" = ");
    out.append(display_value(Some(dom), v).as_str());
    out.append("\n");
}

fn push_property(dom: &SemanticDom, depth: usize, key: &str, v: &Value, out: &mut String)
    requires
        dom.wf(),
        depth < usize::MAX,
    ensures
        final(out)@ == old(out)@ + property_lines(dom@, depth as nat, key@, v@),
{
    let ghost before = out@;
    match v {
        Value::Attributes(list) => {
            let ghost model = keyed::view_list(list@);
            proof {
                value::lemma_attributes_view(*v);
            }
            push_indent(out, depth + 1);
            out.append(key);
            if list.len() == 0 {
                out.append(" = {}\n");
                assert(out@ =~= before + property_lines(dom@, depth as nat, key@, v@));
                return ;
            }
            out.append("\n");
            let ghost start = out@;
            let mut i: usize = 0;
            assert(start + entry_lines(dom@, (depth + 2) as nat, model.take(0)) =~= start);
            while i < list.len()
                invariant
                    i <= list.len(),
                    dom.wf(),
                    depth < usize::MAX,
                    model == keyed::view_list(list@),
                    out@ == start + entry_lines(dom@, (depth + 2) as nat, model.take(i as int)),
                decreases list.len() - i,
            {
                let ghost so_far = entry_lines(dom@, (depth + 2) as nat, model.take(i as int));
                proof {
                    assert(model.take(i + 1).drop_last() =~= model.take(i as int));
                    assert(model[i as int] == (list@[i as int].0@, list@[i as int].1@));
                    assert(indent((depth + 2) as nat) == indent((depth + 1) as nat) + "  "@);
                }
                push_indent(out, depth + 1);
                out.append("  ");
                push_value(dom, list[i].0.as_str(), &list[i].1, out);
                assert(out@ =~= start + (so_far + value_line(
                    dom@,
                    (depth + 2) as nat,
                    model[i as int].0,
                    model[i as int].1,
                )));
                i += 1;
            }
            assert(model.take(list.len() as int) =~= model);
            assert(out@ =~= before + property_lines(dom@, depth as nat, key@, v@));
        },
        _ => {
            push_indent(out, depth + 1);
            push_value(dom, key, v, out);
            assert(out@ =~= before + property_lines(dom@, depth as nat, key@, v@));
        },
    }
}

impl<'a> Renderer<'a> {
    /// Writes the lines of an instance, without its descendants.
    fn render_node_lines(&self, node: &SemanticInstance, depth: usize, out: &mut String)
        requires
            self.dom.wf(),
            depth < usize::MAX,
        ensures
            final(out)@ == old(out)@ + node_lines(
                self.dom@,
                self.style(),
                node@,
                depth as nat,
            ),
    {
        let ghost before = out@;
        let ghost d = self.dom@;
        let ghost style = self.style();
        if depth == 0 {
            out.append(node.class.as_str());
            out.append("\n");
        } else {
            out.append("\n");
            push_indent(out, depth);
            out.append(node.class.as_str());
            out.append(" ");
            out.append(quote(node.name.as_str()).as_str());
            out.append("\n");
        }
        assert(out@ =~= before + header_lines(node@, depth as nat));
        let ghost start = out@;
        let mut i: usize = 0;
        assert(start + properties_lines(d, style, node@, depth as nat, 0) =~= start);
        while i < node.properties.len()
            invariant
                i <= node.properties.len(),
                self.dom.wf(),
                d == self.dom@,
                style == self.style(),
                depth < usize::MAX,
                out@ == start + properties_lines(d, style, node@, depth as nat, i as int),
            decreases node.properties.len() - i,
        {
            let ghost so_far = properties_lines(d, style, node@, depth as nat, i as int);
            let key = node.properties[i].0.as_str();
            let v = &node.properties[i].1;
            assert(node@.properties[i as int] == (key@, v@));
            if self.options.all_properties || !is_noise_property(
                self.db,
                node.class.as_str(),
                key,
                v,
            ) {
                push_property(self.dom, depth, key, v, out);
                assert(out@ =~= start + (so_far + property_lines(d, depth as nat, key@, v@)));
            }
            i += 1;
        }
        assert(out@ =~= before + node_lines(d, style, node@, depth as nat));
    }

    /// Writes the lines of an instance and of its descendants.
    fn render_node(&self, id: usize, depth: usize, out: &mut String)
        requires
            self.dom.wf(),
            id < self.dom@.len(),
            depth <= id,
        ensures
            final(out)@ == old(out)@ + subtree_text(
                self.dom@,
                self.style(),
                id as int,
                depth as nat,
            ),
        decreases self.dom@.len() - id,
    {
        let ghost before = out@;
        let ghost d = self.dom@;
        let ghost style = self.style();
        let node = self.dom.node(id);
        let _count: usize = self.dom.count();
        self.render_node_lines(node, depth, out);
        let ghost start = out@;
        let mut i: usize = 0;
        proof {
            matching::lemma_children(d, id as int);
            assert(start + children_text(d, style, id as int, depth as nat, 0) =~= start);
        }
        while i < node.children.len()
            invariant
                i <= node.children.len(),
                self.dom.wf(),
                d == self.dom@,
                style == self.style(),
                id < d.len(),
                d.len() <= usize::MAX,
                depth <= id,
                d[id as int] == node@,
                forall|k: int|
                    0 <= k < d[id as int].children.len() ==> id < (
                    #[trigger] d[id as int].children[k]) < d.len(),
                out@ == start + children_text(d, style, id as int, depth as nat, i as int),
            decreases node.children.len() - i,
        {
            let ghost so_far = children_text(d, style, id as int, depth as nat, i as int);
            let child: usize = node.children[i];
            assert(id < d[id as int].children[i as int] < d.len());
            self.render_node(child, depth + 1, out);
            assert(out@ =~= start + (so_far + subtree_text(
                d,
                style,
                child as int,
                (depth + 1) as nat,
            )));
            i += 1;
        }
        assert(out@ =~= before + subtree_text(d, style, id as int, depth as nat));
    }

    /// Writes the first line.
    fn render_title(&self, format: FileFormat) -> (res: String)
        ensures
            res@ == title(format),
    {
        let mut out = "# rbx-merge — ".to_owned();
        out.append(format.label());
        out.append("\n");
        out
    }

    /// Writes the text of the file.
    pub fn render_textconv(&self, format: FileFormat) -> (res: String)
        requires
            self.dom.wf(),
        ensures
            res@ == file_text(self.dom@, format, self.style()),
    {
        let mut out = self.render_title(format);
        self.render_node(0, 0, &mut out);
        out
    }

    /// Writes the bytes of the lines of an instance and of its descendants, one
    /// instance at a time.
    fn stream_node(&self, id: usize, depth: usize, out: &mut Vec<u8>)
        requires
            self.dom.wf(),
            id < self.dom@.len(),
            depth <= id,
        ensures
            final(out)@ == old(out)@ + vstd::utf8::encode_utf8(
                subtree_text(self.dom@, self.style(), id as int, depth as nat),
            ),
        decreases self.dom@.len() - id,
    {
        let ghost before = out@;
        let ghost d = self.dom@;
        let ghost style = self.style();
        let node = self.dom.node(id);
        let _count: usize = self.dom.count();
        let mut lines = String::new();
        self.render_node_lines(node, depth, &mut lines);
        assert(lines@ =~= node_lines(d, style, node@, depth as nat));
        write_text(lines.as_str(), out);
        let ghost start = out@;
        let mut i: usize = 0;
        proof {
            matching::lemma_children(d, id as int);
            assert(start + vstd::utf8::encode_utf8(Seq::<char>::empty()) =~= start);
        }
        while i < node.children.len()
            invariant
                i <= node.children.len(),
                self.dom.wf(),
                d == self.dom@,
                style == self.style(),
                id < d.len(),
                d.len() <= usize::MAX,
                depth <= id,
                d[id as int] == node@,
                forall|k: int|
                    0 <= k < d[id as int].children.len() ==> id < (
                    #[trigger] d[id as int].children[k]) < d.len(),
                out@ == start + vstd::utf8::encode_utf8(
                    children_text(d, style, id as int, depth as nat, i as int),
                ),
            decreases node.children.len() - i,
        {
            let ghost so_far = children_text(d, style, id as int, depth as nat, i as int);
            let child: usize = node.children[i];
            assert(id < d[id as int].children[i as int] < d.len());
            self.stream_node(child, depth + 1, out);
            proof {
                let more = subtree_text(d, style, child as int, (depth + 1) as nat);
                lemma_encode_concat(so_far, more);
                assert(out@ =~= start + vstd::utf8::encode_utf8(so_far + more));
            }
            i += 1;
        }
        proof {
            let a = node_lines(d, style, node@, depth as nat);
            let b = children_text(
                d,
                style,
                id as int,
                depth as nat,
                node@.children.len() as int,
            );
            lemma_encode_concat(a, b);
            assert(out@ =~= before + vstd::utf8::encode_utf8(subtree_text(d, style, id as int, depth as nat)));
        }
    }

    /// Writes the bytes of the text of the file, one instance at a time.
    pub fn stream_textconv(&self, format: FileFormat, out: &mut Vec<u8>)
        requires
            self.dom.wf(),
        ensures
            final(out)@ == old(out)@ + vstd::utf8::encode_utf8(file_text(self.dom@, format, self.style())),
    {
        let ghost before = out@;
        let first = self.render_title(format);
        write_text(first.as_str(), out);
        self.stream_node(0, 0, out);
        proof {
            let rest = subtree_text(self.dom@, self.style(), 0, 0);
            lemma_encode_concat(title(format), rest);
            assert(out@ =~= before + vstd::utf8::encode_utf8(file_text(self.dom@, format, self.style())));
        }
    }
}

/// The bytes of two texts one after the other.
pub proof fn lemma_encode_concat(a: Text, b: Text)
    ensures
        vstd::utf8::encode_utf8(a + b) == vstd::utf8::encode_utf8(a) + vstd::utf8::encode_utf8(b),
    decreases a.len(),
{
    if a.len() == 0 {
        assert(a + b =~= b);
        assert(vstd::utf8::encode_utf8(a) + vstd::utf8::encode_utf8(b) =~= vstd::utf8::encode_utf8(b));
    } else {
        lemma_encode_concat(a.drop_first(), b);
        assert((a + b).drop_first() =~= a.drop_first() + b);
        assert((a + b)[0] == a[0]);
        assert(vstd::utf8::encode_utf8(a + b) =~= vstd::utf8::encode_utf8(a) + vstd::utf8::encode_utf8(b));
    }
}

/// Adds the bytes of a text.
fn write_text(s: &str, out: &mut Vec<u8>)
    ensures
        final(out)@ == old(out)@ + vstd::utf8::encode_utf8(s@),
{
    let ghost before = out@;
    let bytes = s.as_bytes();
    let mut i: usize = 0;
    assert(before + bytes@.take(0) =~= before);
    while i < bytes.len()
        invariant
            i <= bytes.len(),
            out@ == before + bytes@.take(i as int),
        decreases bytes.len() - i,
    {
        out.push(bytes[i]);
        assert(before + bytes@.take(i + 1) =~= (before + bytes@.take(i as int)).push(
            bytes@[i as int],
        ));
        i += 1;
    }
    assert(bytes@.take(bytes@.len() as int) =~= bytes@);
}

} // verus!
