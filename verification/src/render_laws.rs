//! What the text of a file shows: every instance and every property that counts on a line of
//! its own, and nothing of the others.

use vstd::prelude::*;

use crate::display;
use crate::format::FileFormat;
use crate::matching;
use crate::reflection;
use crate::render;
use crate::render::Style;
use crate::semantic;
use crate::semantic::{DomModel, InstanceModel};
use crate::text;
use crate::text::Text;
use crate::value::ValueModel;

verus! {

// ---------------------------------------------------------------------------
// Lines
// ---------------------------------------------------------------------------

/// So many spaces.
pub open spec fn spaces(n: nat) -> Text {
    Seq::new(n, |i: int| ' ')
}

/// Whether a line stands at a place of a text, at the start of a line of it.
pub open spec fn line_at(t: Text, line: Text, n: int) -> bool {
    &&& 0 <= n
    &&& n + line.len() <= t.len()
    &&& t.subrange(n, n + line.len()) == line
    &&& n == 0 || t[n - 1] == '\n'
}

/// Whether a text holds a line.
pub open spec fn has_line(t: Text, line: Text) -> bool {
    exists|n: int| line_at(t, line, n)
}

/// Whether lines end with a text, if it holds any.
pub open spec fn ends_lines(t: Text) -> bool {
    t.len() == 0 || t.last() == '\n'
}

pub proof fn lemma_line_before(a: Text, b: Text, line: Text)
    requires
        has_line(a, line),
    ensures
        has_line(a + b, line),
{
    let n = choose|n: int| line_at(a, line, n);
    assert((a + b).subrange(n, n + line.len()) =~= a.subrange(n, n + line.len()));
    assert(line_at(a + b, line, n));
}

pub proof fn lemma_line_behind(a: Text, b: Text, line: Text)
    requires
        has_line(b, line),
        ends_lines(a),
    ensures
        has_line(a + b, line),
{
    let n = choose|n: int| line_at(b, line, n);
    let m = a.len() + n;
    assert((a + b).subrange(m, m + line.len()) =~= b.subrange(n, n + line.len()));
    if n == 0 && m > 0 {
        assert((a + b)[m - 1] == a.last());
    } else if n > 0 {
        assert((a + b)[m - 1] == b[n - 1]);
    }
    assert(line_at(a + b, line, m));
}

pub proof fn lemma_line_itself(line: Text)
    ensures
        has_line(line, line),
{
    assert(line.subrange(0, line.len() as int) =~= line);
    assert(line_at(line, line, 0));
}

pub proof fn lemma_ends(a: Text, b: Text)
    requires
        ends_lines(a),
        ends_lines(b),
    ensures
        ends_lines(a + b),
{
    if b.len() == 0 {
        assert(a + b =~= a);
    } else {
        assert((a + b).last() == b.last());
    }
}

proof fn lemma_indent(depth: nat)
    ensures
        render::indent(depth) == spaces(2 * depth),
    decreases depth,
{
    reveal_strlit("  ");
    if depth > 0 {
        lemma_indent((depth - 1) as nat);
    }
    assert(render::indent(depth) =~= spaces(2 * depth));
}

pub proof fn lemma_newline()
    ensures
        "\n"@ == seq!['\n'],
{
    reveal_strlit("\n");
    assert("\n"@ =~= seq!['\n']);
}

/// A line of a property: its name and its text with an equals sign between them.
pub open spec fn property_line(d: DomModel, margin: nat, key: Text, v: ValueModel) -> Text {
    spaces(margin) + key + seq![' ', '=', ' '] + display::value_text(Some(d), v) + seq!['\n']
}

proof fn lemma_value_line(d: DomModel, depth: nat, key: Text, v: ValueModel)
    ensures
        render::value_line(d, depth, key, v) == property_line(d, 2 * depth, key, v),
        ends_lines(render::value_line(d, depth, key, v)),
{
    lemma_newline();
    lemma_indent(depth);
    reveal_strlit(" = ");
    assert(" = "@ =~= seq![' ', '=', ' ']);
}

proof fn lemma_entries(d: DomModel, depth: nat, list: Seq<(Text, ValueModel)>)
    ensures
        ends_lines(render::entry_lines(d, depth, list)),
        forall|j: int|
            0 <= j < list.len() ==> has_line(
                render::entry_lines(d, depth, list),
                property_line(d, 2 * depth, (#[trigger] list[j]).0, list[j].1),
            ),
    decreases list.len(),
{
    if list.len() > 0 {
        let front = list.drop_last();
        let (a, b) = (
            render::entry_lines(d, depth, front),
            render::value_line(d, depth, list.last().0, list.last().1),
        );
        lemma_entries(d, depth, front);
        lemma_value_line(d, depth, list.last().0, list.last().1);
        lemma_ends(a, b);
        assert forall|j: int| 0 <= j < list.len() implies has_line(
            a + b,
            property_line(d, 2 * depth, (#[trigger] list[j]).0, list[j].1),
        ) by {
            let line = property_line(d, 2 * depth, list[j].0, list[j].1);
            if j < front.len() {
                assert(front[j] == list[j]);
                lemma_line_before(a, b, line);
            } else {
                lemma_line_itself(b);
                lemma_line_behind(a, b, line);
            }
        }
    }
}

/// Whether a text holds what there is to see of a property of an instance so deep: a line
/// with its value, or for an attribute map one with its name and one for each entry.
pub open spec fn tells(t: Text, d: DomModel, depth: nat, key: Text, v: ValueModel) -> bool {
    match v {
        ValueModel::Attributes(list) => if list.len() == 0 {
            has_line(t, spaces(2 * depth + 2) + key + " = {}\n"@)
        } else {
            &&& has_line(t, spaces(2 * depth + 2) + key + seq!['\n'])
            &&& forall|j: int|
                0 <= j < list.len() ==> has_line(
                    t,
                    property_line(d, 2 * depth + 4, (#[trigger] list[j]).0, list[j].1),
                )
        },
        _ => has_line(t, property_line(d, 2 * depth + 2, key, v)),
    }
}

proof fn lemma_property(d: DomModel, depth: nat, key: Text, v: ValueModel)
    ensures
        ends_lines(render::property_lines(d, depth, key, v)),
        tells(render::property_lines(d, depth, key, v), d, depth, key, v),
{
    lemma_newline();
    lemma_indent(depth + 1);
    let t = render::property_lines(d, depth, key, v);
    match v {
        ValueModel::Attributes(list) => {
            if list.len() == 0 {
                reveal_strlit(" = {}\n");
                lemma_line_itself(t);
            } else {
                let a = render::indent(depth + 1) + key + "\n"@;
                let b = render::entry_lines(d, depth + 2, list);
                lemma_entries(d, depth + 2, list);
                lemma_line_itself(a);
                lemma_line_before(a, b, a);
                lemma_ends(a, b);
                assert forall|j: int| 0 <= j < list.len() implies has_line(
                    t,
                    property_line(d, 2 * depth + 4, (#[trigger] list[j]).0, list[j].1),
                ) by {
                    lemma_line_behind(a, b, property_line(d, 2 * (depth + 2), list[j].0, list[j].1));
                }
            }
        },
        _ => {
            lemma_value_line(d, depth + 1, key, v);
            lemma_line_itself(t);
        },
    }
}

proof fn lemma_tells_before(a: Text, b: Text, d: DomModel, depth: nat, key: Text, v: ValueModel)
    requires
        tells(a, d, depth, key, v),
    ensures
        tells(a + b, d, depth, key, v),
{
    match v {
        ValueModel::Attributes(list) => {
            if list.len() == 0 {
                lemma_line_before(a, b, spaces(2 * depth + 2) + key + " = {}\n"@);
            } else {
                lemma_line_before(a, b, spaces(2 * depth + 2) + key + seq!['\n']);
                assert forall|j: int| 0 <= j < list.len() implies has_line(
                    a + b,
                    property_line(d, 2 * depth + 4, (#[trigger] list[j]).0, list[j].1),
                ) by {
                    lemma_line_before(
                        a,
                        b,
                        property_line(d, 2 * depth + 4, list[j].0, list[j].1),
                    );
                }
            }
        },
        _ => {
            lemma_line_before(a, b, property_line(d, 2 * depth + 2, key, v));
        },
    }
}

proof fn lemma_tells_behind(a: Text, b: Text, d: DomModel, depth: nat, key: Text, v: ValueModel)
    requires
        tells(b, d, depth, key, v),
        ends_lines(a),
    ensures
        tells(a + b, d, depth, key, v),
{
    match v {
        ValueModel::Attributes(list) => {
            if list.len() == 0 {
                lemma_line_behind(a, b, spaces(2 * depth + 2) + key + " = {}\n"@);
            } else {
                lemma_line_behind(a, b, spaces(2 * depth + 2) + key + seq!['\n']);
                assert forall|j: int| 0 <= j < list.len() implies has_line(
                    a + b,
                    property_line(d, 2 * depth + 4, (#[trigger] list[j]).0, list[j].1),
                ) by {
                    lemma_line_behind(
                        a,
                        b,
                        property_line(d, 2 * depth + 4, list[j].0, list[j].1),
                    );
                }
            }
        },
        _ => {
            lemma_line_behind(a, b, property_line(d, 2 * depth + 2, key, v));
        },
    }
}

/// Whether a property counts: all do where all are asked for, else those that are no unique
/// id and not at their defaults.
pub open spec fn counts(style: Style, class: Text, key: Text, v: ValueModel) -> bool {
    style.all_properties || (key != "UniqueId"@ && !reflection::default_value(
        style.classes,
        class,
        key,
        v,
    ))
}

proof fn lemma_properties(d: DomModel, style: Style, node: InstanceModel, depth: nat, n: int)
    requires
        0 <= n <= node.properties.len(),
    ensures
        ends_lines(render::properties_lines(d, style, node, depth, n)),
        forall|k: int|
            0 <= k < n && counts(
                style,
                node.class,
                (#[trigger] node.properties[k]).0,
                node.properties[k].1,
            ) ==> tells(
                render::properties_lines(d, style, node, depth, n),
                d,
                depth,
                node.properties[k].0,
                node.properties[k].1,
            ),
    decreases n,
{
    if n > 0 {
        let (key, v) = node.properties[n - 1];
        let a = render::properties_lines(d, style, node, depth, n - 1);
        let b = render::property_lines(d, depth, key, v);
        let t = render::properties_lines(d, style, node, depth, n);
        lemma_properties(d, style, node, depth, n - 1);
        lemma_property(d, depth, key, v);
        lemma_ends(a, b);
        assert forall|k: int|
            0 <= k < n && counts(
                style,
                node.class,
                (#[trigger] node.properties[k]).0,
                node.properties[k].1,
            ) implies tells(t, d, depth, node.properties[k].0, node.properties[k].1) by {
            if k == n - 1 {
                lemma_tells_behind(a, b, d, depth, key, v);
            } else {
                lemma_tells_before(a, b, d, depth, node.properties[k].0, node.properties[k].1);
            }
        }
    }
}

/// The line of an instance so deep: its class and its quoted name; of the root the class
/// alone.
pub open spec fn instance_line(node: InstanceModel, depth: nat) -> Text {
    if depth == 0 {
        node.class + seq!['\n']
    } else {
        spaces(2 * depth) + node.class + seq![' '] + text::quoted(node.name) + seq!['\n']
    }
}

proof fn lemma_header(node: InstanceModel, depth: nat)
    ensures
        ends_lines(render::header_lines(node, depth)),
        has_line(render::header_lines(node, depth), instance_line(node, depth)),
{
    lemma_newline();
    lemma_indent(depth);
    reveal_strlit(" ");
    assert(" "@ =~= seq![' ']);
    let line = instance_line(node, depth);
    lemma_line_itself(line);
    if depth > 0 {
        assert(render::header_lines(node, depth) =~= seq!['\n'] + line);
        lemma_line_behind(seq!['\n'], line, line);
    }
}

proof fn lemma_node(d: DomModel, style: Style, node: InstanceModel, depth: nat)
    ensures
        ends_lines(render::node_lines(d, style, node, depth)),
        has_line(render::node_lines(d, style, node, depth), instance_line(node, depth)),
        forall|k: int|
            0 <= k < node.properties.len() && counts(
                style,
                node.class,
                (#[trigger] node.properties[k]).0,
                node.properties[k].1,
            ) ==> tells(
                render::node_lines(d, style, node, depth),
                d,
                depth,
                node.properties[k].0,
                node.properties[k].1,
            ),
{
    let n = node.properties.len() as int;
    let a = render::header_lines(node, depth);
    let b = render::properties_lines(d, style, node, depth, n);
    lemma_header(node, depth);
    lemma_properties(d, style, node, depth, n);
    lemma_ends(a, b);
    lemma_line_before(a, b, instance_line(node, depth));
    assert forall|k: int|
        0 <= k < n && counts(
            style,
            node.class,
            (#[trigger] node.properties[k]).0,
            node.properties[k].1,
        ) implies tells(a + b, d, depth, node.properties[k].0, node.properties[k].1) by {
        lemma_tells_behind(a, b, d, depth, node.properties[k].0, node.properties[k].1);
    }
}

proof fn lemma_subtree_ends(d: DomModel, style: Style, id: int, depth: nat)
    ensures
        ends_lines(render::subtree_text(d, style, id, depth)),
    decreases d.len() - id, 1int, 0int,
{
    let n = d[id].children.len() as int;
    lemma_node(d, style, d[id], depth);
    lemma_children_end(d, style, id, depth, n);
    lemma_ends(
        render::node_lines(d, style, d[id], depth),
        render::children_text(d, style, id, depth, n),
    );
}

proof fn lemma_children_end(d: DomModel, style: Style, id: int, depth: nat, n: int)
    ensures
        ends_lines(render::children_text(d, style, id, depth, n)),
    decreases d.len() - id, 0int, n,
{
    if n > 0 {
        lemma_children_end(d, style, id, depth, n - 1);
        let child = d[id].children[n - 1] as int;
        if id < child < d.len() {
            lemma_subtree_ends(d, style, child, depth + 1);
            lemma_ends(
                render::children_text(d, style, id, depth, n - 1),
                render::subtree_text(d, style, child, depth + 1),
            );
        }
    }
}

/// How many instances stand above one.
pub open spec fn depth_of(d: DomModel, i: int) -> nat
    decreases i,
{
    if i <= 0 {
        0
    } else {
        match d[i].parent {
            Some(p) if p < i => depth_of(d, p as int) + 1,
            _ => 0,
        }
    }
}

proof fn lemma_child_text(d: DomModel, style: Style, id: int, depth: nat, k: int, n: int)
    requires
        semantic::dom_wf(d),
        0 <= id < d.len(),
        0 <= k < n <= d[id].children.len(),
    ensures
        exists|a: Text, b: Text|
            ends_lines(a) && #[trigger] (a + render::subtree_text(
                d,
                style,
                d[id].children[k] as int,
                depth + 1,
            ) + b) == render::children_text(d, style, id, depth, n),
    decreases n,
{
    matching::lemma_children(d, id);
    let whole = render::children_text(d, style, id, depth, n);
    let so_far = render::children_text(d, style, id, depth, n - 1);
    let child = d[id].children[n - 1] as int;
    assert(id < d[id].children[n - 1] < d.len());
    let last = render::subtree_text(d, style, child, depth + 1);
    assert(whole == so_far + last);
    if k == n - 1 {
        lemma_children_end(d, style, id, depth, n - 1);
        assert(so_far + last + Seq::<char>::empty() =~= whole);
    } else {
        lemma_child_text(d, style, id, depth, k, n - 1);
        let t = render::subtree_text(d, style, d[id].children[k] as int, depth + 1);
        let (a, b) = choose|a: Text, b: Text|
            ends_lines(a) && #[trigger] (a + t + b) == so_far;
        assert(a + t + (b + last) =~= whole);
    }
}

/// The text of an instance and its descendants stands in that of the file.
#[verifier::rlimit(50)]
proof fn lemma_subtree_in_file(d: DomModel, style: Style, format: FileFormat, i: int)
    requires
        semantic::dom_wf(d),
        0 <= i < d.len(),
    ensures
        exists|a: Text, b: Text|
            ends_lines(a) && #[trigger] (a + render::subtree_text(d, style, i, depth_of(d, i)) + b)
                == render::file_text(d, format, style),
    decreases i,
{
    let whole = render::file_text(d, format, style);
    let t = render::subtree_text(d, style, i, depth_of(d, i));
    if i == 0 {
        lemma_newline();
        assert(render::title(format).last() == '\n');
        assert(render::title(format) + t + Seq::<char>::empty() =~= whole);
    } else {
        matching::lemma_is_child(d, i);
        let p = d[i].parent->0 as int;
        let depth = depth_of(d, p);
        lemma_subtree_in_file(d, style, format, p);
        let above = render::subtree_text(d, style, p, depth);
        let (a, b) = choose|a: Text, b: Text|
            ends_lines(a) && #[trigger] (a + above + b) == whole;
        let n = d[p].children.len() as int;
        let k = d[p].children.index_of(i as usize);
        lemma_child_text(d, style, p, depth, k, n);
        let (x, y) = choose|x: Text, y: Text|
            ends_lines(x) && #[trigger] (x + t + y) == render::children_text(d, style, p, depth, n);
        let lines = render::node_lines(d, style, d[p], depth);
        lemma_node(d, style, d[p], depth);
        lemma_ends(a, lines);
        lemma_ends(a + lines, x);
        assert((a + lines + x) + t + (y + b) =~= whole);
    }
}

proof fn lemma_lines_in_file(d: DomModel, style: Style, format: FileFormat, i: int)
    requires
        semantic::dom_wf(d),
        0 <= i < d.len(),
    ensures
        exists|a: Text, b: Text|
            ends_lines(a) && #[trigger] (a + render::node_lines(d, style, d[i], depth_of(d, i)) + b)
                == render::file_text(d, format, style),
{
    lemma_subtree_in_file(d, style, format, i);
    let depth = depth_of(d, i);
    let t = render::subtree_text(d, style, i, depth);
    let (a, b) = choose|a: Text, b: Text|
        ends_lines(a) && #[trigger] (a + t + b) == render::file_text(d, format, style);
    let lines = render::node_lines(d, style, d[i], depth);
    let rest = render::children_text(d, style, i, depth, d[i].children.len() as int);
    assert(a + lines + (rest + b) =~= a + t + b);
}

/// Every instance has a line in the text of its file, indented by how deep it stands, with
/// its class and its quoted name; that of the root holds the class alone.
pub proof fn law_instance_has_its_line(d: DomModel, style: Style, format: FileFormat, i: int)
    requires
        semantic::dom_wf(d),
        0 <= i < d.len(),
    ensures
        has_line(render::file_text(d, format, style), instance_line(d[i], depth_of(d, i))),
        i > 0 ==> depth_of(d, i) > 0,
{
    let depth = depth_of(d, i);
    let lines = render::node_lines(d, style, d[i], depth);
    let line = instance_line(d[i], depth);
    lemma_node(d, style, d[i], depth);
    lemma_lines_in_file(d, style, format, i);
    let (a, b) = choose|a: Text, b: Text|
        ends_lines(a) && #[trigger] (a + lines + b) == render::file_text(d, format, style);
    lemma_line_behind(a, lines, line);
    lemma_line_before(a + lines, b, line);
    if i > 0 {
        matching::lemma_is_child(d, i);
    }
}

/// Every property that counts has its line in the text of its file, with the text of its
/// value, one level below that of its instance. An attribute map has a line for each entry,
/// one level deeper still.
pub proof fn law_property_has_its_line(
    d: DomModel,
    style: Style,
    format: FileFormat,
    i: int,
    k: int,
)
    requires
        semantic::dom_wf(d),
        0 <= i < d.len(),
        0 <= k < d[i].properties.len(),
        counts(style, d[i].class, d[i].properties[k].0, d[i].properties[k].1),
    ensures
        tells(
            render::file_text(d, format, style),
            d,
            depth_of(d, i),
            d[i].properties[k].0,
            d[i].properties[k].1,
        ),
{
    let depth = depth_of(d, i);
    let lines = render::node_lines(d, style, d[i], depth);
    let (key, v) = d[i].properties[k];
    lemma_node(d, style, d[i], depth);
    lemma_lines_in_file(d, style, format, i);
    let (a, b) = choose|a: Text, b: Text|
        ends_lines(a) && #[trigger] (a + lines + b) == render::file_text(d, format, style);
    lemma_tells_behind(a, lines, d, depth, key, v);
    lemma_tells_before(a + lines, b, d, depth, key, v);
}

// ---------------------------------------------------------------------------
// What is left out
// ---------------------------------------------------------------------------

/// Those of the first `n` properties of an instance that count.
pub open spec fn counted(style: Style, node: InstanceModel, n: int) -> Seq<(Text, ValueModel)>
    decreases n,
{
    if n <= 0 {
        Seq::empty()
    } else {
        let (key, v) = node.properties[n - 1];
        if counts(style, node.class, key, v) {
            counted(style, node, n - 1).push((key, v))
        } else {
            counted(style, node, n - 1)
        }
    }
}

/// Whether two trees hold the same instances in the same places.
pub open spec fn same_instances(d: DomModel, e: DomModel) -> bool {
    &&& d.len() == e.len()
    &&& forall|i: int|
        0 <= i < d.len() ==> {
            &&& (#[trigger] d[i]).source_ref == e[i].source_ref
            &&& d[i].class == e[i].class
            &&& d[i].name == e[i].name
            &&& d[i].parent == e[i].parent
            &&& d[i].children == e[i].children
        }
}

/// Whether the same properties count in two trees of the same instances.
pub open spec fn same_counted(d: DomModel, e: DomModel, style: Style) -> bool {
    forall|i: int|
        0 <= i < d.len() ==> counted(
            style,
            #[trigger] d[i],
            d[i].properties.len() as int,
        ) == counted(style, e[i], e[i].properties.len() as int)
}

proof fn lemma_same_path(d: DomModel, e: DomModel, i: int)
    requires
        same_instances(d, e),
        0 <= i < d.len(),
    ensures
        semantic::path_names(d, i) == semantic::path_names(e, i),
    decreases i,
{
    assert(d[i].name == e[i].name && d[i].parent == e[i].parent);
    if i > 0 {
        if let Some(p) = d[i].parent {
            if p < i {
                lemma_same_path(d, e, p as int);
            }
        }
    }
}

proof fn lemma_same_target(d: DomModel, e: DomModel, r: u128)
    requires
        semantic::dom_wf(d),
        semantic::dom_wf(e),
        same_instances(d, e),
    ensures
        display::ref_text(Some(d), r) == display::ref_text(Some(e), r),
{
    if exists|i: int| 0 <= i < d.len() && (#[trigger] d[i]).source_ref == r {
        let i = choose|i: int| 0 <= i < d.len() && (#[trigger] d[i]).source_ref == r;
        assert(e[i].source_ref == r);
        semantic::lemma_node_of_ref(d, i);
        semantic::lemma_node_of_ref(e, i);
        lemma_same_path(d, e, i);
    } else {
        assert forall|i: int| 0 <= i < e.len() implies (#[trigger] e[i]).source_ref != r by {
            assert(d[i].source_ref == e[i].source_ref);
        }
    }
}

proof fn lemma_same_value(d: DomModel, e: DomModel, v: ValueModel)
    requires
        semantic::dom_wf(d),
        semantic::dom_wf(e),
        same_instances(d, e),
    ensures
        display::value_text(Some(d), v) == display::value_text(Some(e), v),
    decreases v,
{
    match v {
        ValueModel::Ref(r) => lemma_same_target(d, e, r),
        ValueModel::Object(r) => lemma_same_target(d, e, r),
        ValueModel::Attributes(list) => lemma_same_entries(d, e, list),
        ValueModel::Leaf(_) => {},
    }
}

proof fn lemma_same_entries(d: DomModel, e: DomModel, list: Seq<(Text, ValueModel)>)
    requires
        semantic::dom_wf(d),
        semantic::dom_wf(e),
        same_instances(d, e),
    ensures
        display::entry_texts(Some(d), list) == display::entry_texts(Some(e), list),
    decreases list,
{
    if list.len() > 0 {
        lemma_same_entries(d, e, list.drop_last());
        lemma_same_value(d, e, list.last().1);
    }
}

proof fn lemma_same_entry_lines(
    d: DomModel,
    e: DomModel,
    depth: nat,
    list: Seq<(Text, ValueModel)>,
)
    requires
        semantic::dom_wf(d),
        semantic::dom_wf(e),
        same_instances(d, e),
    ensures
        render::entry_lines(d, depth, list) == render::entry_lines(e, depth, list),
    decreases list.len(),
{
    if list.len() > 0 {
        lemma_same_entry_lines(d, e, depth, list.drop_last());
        lemma_same_value(d, e, list.last().1);
    }
}

proof fn lemma_same_property(d: DomModel, e: DomModel, depth: nat, key: Text, v: ValueModel)
    requires
        semantic::dom_wf(d),
        semantic::dom_wf(e),
        same_instances(d, e),
    ensures
        render::property_lines(d, depth, key, v) == render::property_lines(e, depth, key, v),
{
    match v {
        ValueModel::Attributes(list) => lemma_same_entry_lines(d, e, depth + 2, list),
        _ => lemma_same_value(d, e, v),
    }
}

/// The lines of some properties.
spec fn lines_of(d: DomModel, depth: nat, list: Seq<(Text, ValueModel)>) -> Text
    decreases list.len(),
{
    if list.len() == 0 {
        Seq::empty()
    } else {
        lines_of(d, depth, list.drop_last()) + render::property_lines(
            d,
            depth,
            list.last().0,
            list.last().1,
        )
    }
}

proof fn lemma_lines_of(d: DomModel, style: Style, node: InstanceModel, depth: nat, n: int)
    ensures
        render::properties_lines(d, style, node, depth, n) == lines_of(
            d,
            depth,
            counted(style, node, n),
        ),
    decreases n,
{
    if n > 0 {
        lemma_lines_of(d, style, node, depth, n - 1);
        let front = counted(style, node, n - 1);
        let (key, v) = node.properties[n - 1];
        assert(front.push((key, v)).drop_last() =~= front);
    }
}

proof fn lemma_same_lines(d: DomModel, e: DomModel, depth: nat, list: Seq<(Text, ValueModel)>)
    requires
        semantic::dom_wf(d),
        semantic::dom_wf(e),
        same_instances(d, e),
    ensures
        lines_of(d, depth, list) == lines_of(e, depth, list),
    decreases list.len(),
{
    if list.len() > 0 {
        lemma_same_lines(d, e, depth, list.drop_last());
        lemma_same_property(d, e, depth, list.last().0, list.last().1);
    }
}

proof fn lemma_same_subtree(d: DomModel, e: DomModel, style: Style, id: int, depth: nat)
    requires
        semantic::dom_wf(d),
        semantic::dom_wf(e),
        same_instances(d, e),
        same_counted(d, e, style),
        0 <= id < d.len(),
    ensures
        render::subtree_text(d, style, id, depth) == render::subtree_text(e, style, id, depth),
    decreases d.len() - id, 1int, 0int,
{
    assert(d[id].children == e[id].children);
    lemma_lines_of(d, style, d[id], depth, d[id].properties.len() as int);
    lemma_lines_of(e, style, e[id], depth, e[id].properties.len() as int);
    lemma_same_lines(d, e, depth, counted(style, d[id], d[id].properties.len() as int));
    lemma_same_children(d, e, style, id, depth, d[id].children.len() as int);
}

proof fn lemma_same_children(
    d: DomModel,
    e: DomModel,
    style: Style,
    id: int,
    depth: nat,
    n: int,
)
    requires
        semantic::dom_wf(d),
        semantic::dom_wf(e),
        same_instances(d, e),
        same_counted(d, e, style),
        0 <= id < d.len(),
    ensures
        render::children_text(d, style, id, depth, n) == render::children_text(
            e,
            style,
            id,
            depth,
            n,
        ),
    decreases d.len() - id, 0int, n,
{
    if n > 0 {
        lemma_same_children(d, e, style, id, depth, n - 1);
        assert(d[id].children == e[id].children);
        let child = d[id].children[n - 1] as int;
        if id < child < d.len() {
            lemma_same_subtree(d, e, style, child, depth + 1);
        }
    }
}

/// What does not count leaves no trace: the text of a file is that of any other with the
/// same instances and the same properties that count. So new unique ids, and values at
/// their defaults, change nothing.
pub proof fn law_what_does_not_count_is_left_out(
    d: DomModel,
    e: DomModel,
    style: Style,
    format: FileFormat,
)
    requires
        semantic::dom_wf(d),
        semantic::dom_wf(e),
        same_instances(d, e),
        same_counted(d, e, style),
    ensures
        render::file_text(d, format, style) == render::file_text(e, format, style),
{
    lemma_same_subtree(d, e, style, 0, 0);
}

/// The text of a file starts with a line that names the format.
pub proof fn law_title_names_the_format(
    d: DomModel,
    style: Style,
    format: FileFormat,
)
    ensures
        has_line(
            render::file_text(d, format, style),
            "# rbx-merge — "@ + (match format {
                FileFormat::BinaryModel => "binary model (.rbxm)"@,
                FileFormat::BinaryPlace => "binary place (.rbxl)"@,
                FileFormat::XmlModel => "XML model (.rbxmx)"@,
                FileFormat::XmlPlace => "XML place (.rbxlx)"@,
            }) + seq!['\n'],
        ),
{
    lemma_newline();
    lemma_line_itself(render::title(format));
    lemma_line_before(
        render::title(format),
        render::subtree_text(d, style, 0, 0),
        render::title(format),
    );
}

// ---------------------------------------------------------------------------
// The order of what is shown
// ---------------------------------------------------------------------------

/// Whether one text stands before another in a third, without overlap.
pub open spec fn stands_before(t: Text, x: Text, y: Text) -> bool {
    exists|i: int, j: int|
        #![trigger t.subrange(i, i + x.len()), t.subrange(j, j + y.len())]
        0 <= i && i + x.len() <= j && j + y.len() <= t.len() && t.subrange(i, i + x.len()) == x
            && t.subrange(j, j + y.len()) == y
}

proof fn lemma_stands_before(a: Text, x: Text, b: Text, y: Text, c: Text)
    ensures
        stands_before(a + x + b + y + c, x, y),
{
    let t = a + x + b + y + c;
    let i = a.len() as int;
    let j = (a.len() + x.len() + b.len()) as int;
    assert(t.subrange(i, i + x.len()) =~= x);
    assert(t.subrange(j, j + y.len()) =~= y);
}

proof fn lemma_property_text(
    d: DomModel,
    style: Style,
    node: InstanceModel,
    depth: nat,
    k: int,
    n: int,
)
    requires
        0 <= k < n <= node.properties.len(),
        counts(style, node.class, node.properties[k].0, node.properties[k].1),
    ensures
        exists|b: Text| #[trigger]
            (render::properties_lines(d, style, node, depth, k) + render::property_lines(
                d,
                depth,
                node.properties[k].0,
                node.properties[k].1,
            ) + b) == render::properties_lines(d, style, node, depth, n),
    decreases n,
{
    let (key, v) = node.properties[k];
    let start = render::properties_lines(d, style, node, depth, k) + render::property_lines(
        d,
        depth,
        key,
        v,
    );
    let whole = render::properties_lines(d, style, node, depth, n);
    if k == n - 1 {
        assert(start + Seq::<char>::empty() =~= whole);
    } else {
        lemma_property_text(d, style, node, depth, k, n - 1);
        let so_far = render::properties_lines(d, style, node, depth, n - 1);
        let b = choose|b: Text| #[trigger] (start + b) == so_far;
        let (other, w) = node.properties[n - 1];
        if render::is_shown(style, node.class, other, w) {
            assert(start + (b + render::property_lines(d, depth, other, w)) =~= whole);
        } else {
            assert(start + b == whole);
        }
    }
}

/// The properties of an instance are shown in their order.
pub proof fn law_properties_are_shown_in_order(
    d: DomModel,
    style: Style,
    node: InstanceModel,
    depth: nat,
    k: int,
    l: int,
)
    requires
        0 <= k < l < node.properties.len(),
        counts(style, node.class, node.properties[k].0, node.properties[k].1),
        counts(style, node.class, node.properties[l].0, node.properties[l].1),
    ensures
        stands_before(
            render::node_lines(d, style, node, depth),
            render::property_lines(d, depth, node.properties[k].0, node.properties[k].1),
            render::property_lines(d, depth, node.properties[l].0, node.properties[l].1),
        ),
{
    let n = node.properties.len() as int;
    let x = render::property_lines(d, depth, node.properties[k].0, node.properties[k].1);
    let y = render::property_lines(d, depth, node.properties[l].0, node.properties[l].1);
    lemma_property_text(d, style, node, depth, k, l);
    lemma_property_text(d, style, node, depth, l, n);
    let first = render::properties_lines(d, style, node, depth, k);
    let b = choose|b: Text| #[trigger]
        (first + x + b) == render::properties_lines(d, style, node, depth, l);
    let c = choose|c: Text| #[trigger]
        (render::properties_lines(d, style, node, depth, l) + y + c) == render::properties_lines(
            d,
            style,
            node,
            depth,
            n,
        );
    let head = render::header_lines(node, depth);
    lemma_stands_before(head + first, x, b, y, c);
    assert(render::node_lines(d, style, node, depth) =~= (head + first) + x + b + y + c);
}

proof fn lemma_child_first(d: DomModel, style: Style, id: int, depth: nat, k: int, n: int)
    requires
        semantic::dom_wf(d),
        0 <= id < d.len(),
        0 <= k < n <= d[id].children.len(),
    ensures
        exists|b: Text| #[trigger]
            (render::children_text(d, style, id, depth, k) + render::subtree_text(
                d,
                style,
                d[id].children[k] as int,
                depth + 1,
            ) + b) == render::children_text(d, style, id, depth, n),
    decreases n,
{
    matching::lemma_children(d, id);
    assert(id < d[id].children[k] < d.len());
    assert(id < d[id].children[n - 1] < d.len());
    let start = render::children_text(d, style, id, depth, k) + render::subtree_text(
        d,
        style,
        d[id].children[k] as int,
        depth + 1,
    );
    let whole = render::children_text(d, style, id, depth, n);
    if k == n - 1 {
        assert(start + Seq::<char>::empty() =~= whole);
    } else {
        lemma_child_first(d, style, id, depth, k, n - 1);
        let so_far = render::children_text(d, style, id, depth, n - 1);
        let b = choose|b: Text| #[trigger] (start + b) == so_far;
        let last = render::subtree_text(d, style, d[id].children[n - 1] as int, depth + 1);
        assert(start + (b + last) =~= whole);
    }
}

/// An instance is shown before its children, and these in their order.
#[verifier::rlimit(50)]
pub proof fn law_children_are_shown_in_order(
    d: DomModel,
    style: Style,
    id: int,
    depth: nat,
    k: int,
    l: int,
)
    requires
        semantic::dom_wf(d),
        0 <= id < d.len(),
        0 <= k < l < d[id].children.len(),
    ensures
        stands_before(
            render::subtree_text(d, style, id, depth),
            render::subtree_text(d, style, d[id].children[k] as int, depth + 1),
            render::subtree_text(d, style, d[id].children[l] as int, depth + 1),
        ),
        stands_before(
            render::subtree_text(d, style, id, depth),
            render::node_lines(d, style, d[id], depth),
            render::subtree_text(d, style, d[id].children[k] as int, depth + 1),
        ),
{
    let n = d[id].children.len() as int;
    let x = render::subtree_text(d, style, d[id].children[k] as int, depth + 1);
    let y = render::subtree_text(d, style, d[id].children[l] as int, depth + 1);
    lemma_child_first(d, style, id, depth, k, l);
    lemma_child_first(d, style, id, depth, l, n);
    let first = render::children_text(d, style, id, depth, k);
    let b = choose|b: Text| #[trigger]
        (first + x + b) == render::children_text(d, style, id, depth, l);
    let c = choose|c: Text| #[trigger]
        (render::children_text(d, style, id, depth, l) + y + c) == render::children_text(
            d,
            style,
            id,
            depth,
            n,
        );
    let lines = render::node_lines(d, style, d[id], depth);
    let t = render::subtree_text(d, style, id, depth);
    lemma_stands_before(lines + first, x, b, y, c);
    assert(t =~= (lines + first) + x + b + y + c);
    lemma_stands_before(Seq::empty(), lines, first, x, b + y + c);
    assert(t =~= Seq::empty() + lines + first + x + (b + y + c));
}

} // verus!
