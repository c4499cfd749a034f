//! What the class database says of properties: those of a class and of the classes above it,
//! and of their defaults the nearest.

use vstd::prelude::*;

use crate::cycles;
use crate::diagnostics::DiagnosticModel;
use crate::graph::GraphModel;
use crate::matching::Classes;
use crate::reflection;
use crate::text;
use crate::text::Text;
use crate::value;
use crate::value::ValueModel;

verus! {

/// Whether each of some classes is in the database, and the superclass of the one before.
pub open spec fn is_line(classes: Classes, line: Seq<Text>) -> bool {
    &&& forall|i: int| 0 <= i < line.len() ==> classes.contains_key(#[trigger] line[i])
    &&& forall|i: int|
        0 <= i < line.len() - 1 ==> classes[#[trigger] line[i]].superclass == Some(line[i + 1])
}

/// Whether a line of classes leads from a class upwards, no further than there are classes.
pub open spec fn leads_up(classes: Classes, class: Text, line: Seq<Text>) -> bool {
    is_line(classes, line) && 0 < line.len() <= classes.dom().len() && line[0] == class
}

proof fn lemma_line_tail(classes: Classes, line: Seq<Text>)
    requires
        is_line(classes, line),
        line.len() > 1,
    ensures
        is_line(classes, line.drop_first()),
        classes[line[0]].superclass == Some(line.drop_first()[0]),
{
    let rest = line.drop_first();
    assert forall|i: int| 0 <= i < rest.len() implies classes.contains_key(#[trigger] rest[i]) by {
        assert(rest[i] == line[i + 1]);
    }
    assert forall|i: int| 0 <= i < rest.len() - 1 implies classes[#[trigger] rest[i]].superclass
        == Some(rest[i + 1]) by {
        assert(rest[i] == line[i + 1]);
    }
    assert(classes[line[0]].superclass == Some(line[1]));
}

proof fn lemma_longer_line(classes: Classes, class: Text, line: Seq<Text>)
    requires
        classes.contains_key(class),
        is_line(classes, line),
        line.len() > 0,
        classes[class].superclass == Some(line[0]),
    ensures
        is_line(classes, seq![class] + line),
{
    let longer = seq![class] + line;
    assert forall|i: int| 0 <= i < longer.len() implies classes.contains_key(
        #[trigger] longer[i],
    ) by {
        if i > 0 {
            assert(longer[i] == line[i - 1]);
        }
    }
    assert forall|i: int| 0 <= i < longer.len() - 1 implies classes[#[trigger] longer[i]].superclass
        == Some(longer[i + 1]) by {
        if i > 0 {
            assert(longer[i] == line[i - 1] && longer[i + 1] == line[i]);
        }
    }
}

proof fn lemma_line_has(classes: Classes, line: Seq<Text>, property: Text, steps: nat)
    requires
        is_line(classes, line),
        0 < line.len() <= steps,
        classes[line.last()].properties.contains_key(property),
    ensures
        reflection::has_property(classes, line[0], property, steps),
    decreases line.len(),
{
    assert(classes.contains_key(line[0]));
    if line.len() > 1 {
        lemma_line_tail(classes, line);
        assert(line.drop_first().last() == line.last());
        lemma_line_has(classes, line.drop_first(), property, (steps - 1) as nat);
    }
}

proof fn lemma_has_line(classes: Classes, class: Text, property: Text, steps: nat)
    requires
        reflection::has_property(classes, class, property, steps),
    ensures
        exists|line: Seq<Text>| #[trigger]
            is_line(classes, line) && 0 < line.len() <= steps && line[0] == class
                && classes[line.last()].properties.contains_key(property),
    decreases steps,
{
    if classes[class].properties.contains_key(property) {
        let line = seq![class];
        assert(is_line(classes, line));
        assert(line.last() == class);
    } else {
        let above = classes[class].superclass->0;
        lemma_has_line(classes, above, property, (steps - 1) as nat);
        let line = choose|line: Seq<Text>| #[trigger]
            is_line(classes, line) && 0 < line.len() <= steps - 1 && line[0] == above
                && classes[line.last()].properties.contains_key(property);
        lemma_longer_line(classes, class, line);
        assert((seq![class] + line).last() == line.last());
    }
}

/// A property is known of a class that has it, or has it from above; three are known of
/// every class.
pub proof fn law_known_properties_are_inherited(classes: Classes, class: Text, property: Text)
    ensures
        reflection::known_property(classes, class, property) <==> property == "Attributes"@
            || property == "Tags"@ || property == "UniqueId"@ || exists|line: Seq<Text>|
            #[trigger] leads_up(classes, class, line) && classes[line.last()].properties.contains_key(
                property,
            ),
{
    let n = classes.dom().len();
    if reflection::has_property(classes, class, property, n) {
        lemma_has_line(classes, class, property, n);
        let line = choose|line: Seq<Text>| #[trigger]
            is_line(classes, line) && 0 < line.len() <= n && line[0] == class
                && classes[line.last()].properties.contains_key(property);
        assert(leads_up(classes, class, line));
    }
    if exists|line: Seq<Text>| #[trigger]
        leads_up(classes, class, line) && classes[line.last()].properties.contains_key(property) {
        let line = choose|line: Seq<Text>| #[trigger]
            leads_up(classes, class, line) && classes[line.last()].properties.contains_key(
                property,
            );
        lemma_line_has(classes, line, property, n);
    }
}

proof fn lemma_nearest(classes: Classes, line: Seq<Text>, property: Text, steps: nat)
    requires
        is_line(classes, line),
        0 < line.len() <= steps,
        classes[line.last()].defaults.contains_key(property),
        forall|i: int|
            0 <= i < line.len() - 1 ==> !classes[#[trigger] line[i]].defaults.contains_key(
                property,
            ),
    ensures
        reflection::default_of(classes, line[0], property, steps) == Some(
            classes[line.last()].defaults[property],
        ),
    decreases line.len(),
{
    assert(classes.contains_key(line[0]));
    if line.len() > 1 {
        lemma_line_tail(classes, line);
        let rest = line.drop_first();
        assert(rest.last() == line.last());
        assert forall|i: int| 0 <= i < rest.len() - 1 implies !classes[
            #[trigger] rest[i]
        ].defaults.contains_key(property) by {
            assert(rest[i] == line[i + 1]);
        }
        assert(!classes[line[0]].defaults.contains_key(property));
        lemma_nearest(classes, rest, property, (steps - 1) as nat);
    } else {
        assert(line.last() == line[0]);
    }
}

proof fn lemma_default_line(classes: Classes, class: Text, property: Text, steps: nat)
    requires
        reflection::default_of(classes, class, property, steps) is Some,
    ensures
        exists|line: Seq<Text>| #[trigger]
            is_line(classes, line) && 0 < line.len() <= steps && line[0] == class
                && classes[line.last()].defaults.contains_key(property),
    decreases steps,
{
    if classes[class].defaults.contains_key(property) {
        let line = seq![class];
        assert(is_line(classes, line));
        assert(line.last() == class);
    } else {
        let above = classes[class].superclass->0;
        lemma_default_line(classes, above, property, (steps - 1) as nat);
        let line = choose|line: Seq<Text>| #[trigger]
            is_line(classes, line) && 0 < line.len() <= steps - 1 && line[0] == above
                && classes[line.last()].defaults.contains_key(property);
        lemma_longer_line(classes, class, line);
        assert((seq![class] + line).last() == line.last());
    }
}

/// A value is at its default where it equals what the nearest class upwards gives that gives
/// anything; where none gives anything, no value is.
pub proof fn law_nearest_default_counts(
    classes: Classes,
    class: Text,
    property: Text,
    v: ValueModel,
    line: Seq<Text>,
)
    ensures
        leads_up(classes, class, line) && classes[line.last()].defaults.contains_key(property) && (
        forall|i: int|
            0 <= i < line.len() - 1 ==> !classes[#[trigger] line[i]].defaults.contains_key(
                property,
            )) ==> (reflection::default_value(classes, class, property, v) <==> value::raw_equal(
            v,
            value::value_of(classes[line.last()].defaults[property]),
        )),
        (forall|l: Seq<Text>| #[trigger]
            leads_up(classes, class, l) ==> !classes[l.last()].defaults.contains_key(property))
            ==> !reflection::default_value(classes, class, property, v),
{
    let n = classes.dom().len();
    if leads_up(classes, class, line) && classes[line.last()].defaults.contains_key(property) && (
    forall|i: int|
        0 <= i < line.len() - 1 ==> !classes[#[trigger] line[i]].defaults.contains_key(property)) {
        lemma_nearest(classes, line, property, n);
    }
    if reflection::default_value(classes, class, property, v) {
        lemma_default_line(classes, class, property, n);
        let l = choose|l: Seq<Text>| #[trigger]
            is_line(classes, l) && 0 < l.len() <= n && l[0] == class
                && classes[l.last()].defaults.contains_key(property);
        assert(leads_up(classes, class, l));
    }
}

proof fn lemma_row_unknown(classes: Classes, g: GraphModel, r: int, n: int, p: int)
    requires
        0 <= p < n,
        !reflection::known_property(classes, g[r]->0.class, g[r]->0.properties[p].0),
    ensures
        exists|d: DiagnosticModel| #[trigger]
            reflection::row_unknown(classes, g, r, n).contains(d) && is_unknown_remark(
                g,
                r,
                p,
                d,
            ),
    decreases n,
{
    let so_far = reflection::row_unknown(classes, g, r, n - 1);
    let all = reflection::row_unknown(classes, g, r, n);
    if p == n - 1 {
        let d = all[so_far.len() as int];
        assert(all.contains(d));
        assert(is_unknown_remark(g, r, p, d));
    } else {
        lemma_row_unknown(classes, g, r, n - 1, p);
        let d = choose|d: DiagnosticModel| #[trigger]
            so_far.contains(d) && is_unknown_remark(g, r, p, d);
        assert(all[so_far.index_of(d)] == d);
        assert(all.contains(d));
    }
}

/// Whether a remark is about a property of a row that is not known of its class: it names
/// the path of the row, the property and the class.
pub open spec fn is_unknown_remark(g: GraphModel, r: int, p: int, d: DiagnosticModel) -> bool {
    &&& d.severity is Info
    &&& d.code == "unknown_property"@
    &&& d.path == Some(cycles::graph_path(g, r as usize))
    &&& d.message == "property "@ + text::quoted(g[r]->0.properties[p].0) + " on class "@
        + text::quoted(g[r]->0.class) + " is not in the reflection database; preserved as-is"@
}

/// A property that is not known of the class of its row is remarked on.
pub proof fn law_unknown_properties_are_remarked_on(
    classes: Classes,
    g: GraphModel,
    n: int,
    r: int,
    p: int,
)
    requires
        0 <= r < n <= g.len(),
        g[r] is Some,
        0 <= p < g[r]->0.properties.len(),
        !reflection::known_property(classes, g[r]->0.class, g[r]->0.properties[p].0),
    ensures
        exists|d: DiagnosticModel| #[trigger]
            reflection::unknown_properties(classes, g, n).contains(d) && is_unknown_remark(
                g,
                r,
                p,
                d,
            ),
    decreases n,
{
    let so_far = reflection::unknown_properties(classes, g, n - 1);
    let all = reflection::unknown_properties(classes, g, n);
    if r == n - 1 {
        let count = g[r]->0.properties.len() as int;
        let row = reflection::row_unknown(classes, g, r, count);
        lemma_row_unknown(classes, g, r, count, p);
        let d = choose|d: DiagnosticModel| #[trigger]
            row.contains(d) && is_unknown_remark(g, r, p, d);
        assert(all[so_far.len() + row.index_of(d)] == d);
        assert(all.contains(d));
    } else {
        law_unknown_properties_are_remarked_on(classes, g, n - 1, r, p);
        let d = choose|d: DiagnosticModel| #[trigger]
            so_far.contains(d) && is_unknown_remark(g, r, p, d);
        assert(all[so_far.index_of(d)] == d);
        assert(all.contains(d));
    }
}

proof fn lemma_row_founded(classes: Classes, g: GraphModel, r: int, n: int, d: DiagnosticModel)
    requires
        reflection::row_unknown(classes, g, r, n).contains(d),
    ensures
        exists|p: int|
            0 <= p < n && #[trigger] is_unknown_remark(g, r, p, d)
                && !reflection::known_property(classes, g[r]->0.class, g[r]->0.properties[p].0),
    decreases n,
{
    if n > 0 {
        let so_far = reflection::row_unknown(classes, g, r, n - 1);
        let all = reflection::row_unknown(classes, g, r, n);
        let i = all.index_of(d);
        if i < so_far.len() {
            assert(so_far[i] == d);
            lemma_row_founded(classes, g, r, n - 1, d);
        } else {
            assert(is_unknown_remark(g, r, n - 1, d));
        }
    }
}

/// Only properties that are not known are remarked on.
pub proof fn law_unknown_remark_is_founded(
    classes: Classes,
    g: GraphModel,
    n: int,
    d: DiagnosticModel,
)
    requires
        reflection::unknown_properties(classes, g, n).contains(d),
    ensures
        exists|r: int, p: int|
            0 <= r < n && g[r] is Some && 0 <= p < g[r]->0.properties.len()
                && #[trigger] is_unknown_remark(g, r, p, d) && !reflection::known_property(
                classes,
                g[r]->0.class,
                g[r]->0.properties[p].0,
            ),
    decreases n,
{
    if n > 0 {
        let so_far = reflection::unknown_properties(classes, g, n - 1);
        let all = reflection::unknown_properties(classes, g, n);
        let i = all.index_of(d);
        if i < so_far.len() {
            assert(so_far[i] == d);
            law_unknown_remark_is_founded(classes, g, n - 1, d);
        } else {
            let count = g[n - 1]->0.properties.len() as int;
            let row = reflection::row_unknown(classes, g, n - 1, count);
            assert(row[i - so_far.len()] == d);
            lemma_row_founded(classes, g, n - 1, count, d);
        }
    }
}

} // verus!
