//! What the reflection database says of properties, through the superclasses.

use rbx_reflection::ReflectionDatabase;
use rbx_types::Variant;
use vstd::prelude::*;

use crate::cycles;
use crate::cycles::path_in_graph;
use crate::diagnostics;
use crate::diagnostics::{unknown_property_diagnostic, Diagnostic, DiagnosticModel};
use crate::dom;
use crate::dom::{class_count, class_default, class_has_property, superclass_of};
use crate::graph::{GraphModel, MergedGraph, MergedInstance};
use crate::matching::Classes;
use crate::text::{same_text, Text};
use crate::value;
use crate::value::{same_raw, value_from_variant, Value, ValueModel};

verus! {

/// Whether a class or one of its superclasses has a property, within so many
/// steps upwards. A class that the database lacks ends the way up.
pub open spec fn has_property(classes: Classes, class: Text, property: Text, steps: nat) -> bool
    decreases steps,
{
    steps > 0 && classes.contains_key(class) && (classes[class].properties.contains_key(property)
        || match classes[class].superclass {
        Some(superclass) => has_property(classes, superclass, property, (steps - 1) as nat),
        None => false,
    })
}

/// Properties that both formats treat by themselves.
pub open spec fn is_special(property: Text) -> bool {
    property == "Attributes"@ || property == "Tags"@ || property == "UniqueId"@
}

/// Whether a property of a class is known. The way up is as long as there are
/// classes.
pub open spec fn known_property(classes: Classes, class: Text, property: Text) -> bool {
    is_special(property) || has_property(classes, class, property, classes.dom().len())
}

/// The default that a class gives to a property, or the nearest superclass that
/// gives one.
pub open spec fn default_of(classes: Classes, class: Text, property: Text, steps: nat) -> Option<
    Variant,
>
    decreases steps,
{
    if steps == 0 || !classes.contains_key(class) {
        None
    } else if classes[class].defaults.contains_key(property) {
        Some(classes[class].defaults[property])
    } else {
        match classes[class].superclass {
            Some(superclass) => default_of(classes, superclass, property, (steps - 1) as nat),
            None => None,
        }
    }
}

/// Whether a value is the default of a property.
pub open spec fn default_value(
    classes: Classes,
    class: Text,
    property: Text,
    v: ValueModel,
) -> bool {
    match default_of(classes, class, property, classes.dom().len()) {
        Some(default) => value::raw_equal(v, value::value_of(default)),
        None => false,
    }
}

/// Whether a property of a class is known.
pub fn is_known_property(db: &ReflectionDatabase<'static>, class: &str, property: &str) -> (res:
    bool)
    ensures
        res == known_property(dom::classes(*db), class@, property@),
{
    if same_text(property, "Attributes") || same_text(property, "Tags") || same_text(
        property,
        "UniqueId",
    ) {
        return true;
    }
    let ghost classes = dom::classes(*db);
    let mut steps: usize = class_count(db);
    let mut current: String = class.to_owned();
    while steps > 0
        invariant
            classes == dom::classes(*db),
            has_property(classes, class@, property@, classes.dom().len()) == has_property(
                classes,
                current@,
                property@,
                steps as nat,
            ),
            !is_special(property@),
        decreases steps,
    {
        if class_has_property(db, current.as_str(), property) {
            return true;
        }
        match superclass_of(db, current.as_str()) {
            Some(Some(superclass)) => {
                current = superclass;
            },
            _ => {
                return false;
            },
        }
        steps -= 1;
    }
    false
}

/// Whether a value is the default of a property.
pub fn is_default_value(
    db: &ReflectionDatabase<'static>,
    class: &str,
    property: &str,
    v: &Value,
) -> (res: bool)
    ensures
        res == default_value(dom::classes(*db), class@, property@, v@),
{
    let ghost classes = dom::classes(*db);
    let mut steps: usize = class_count(db);
    let mut current: String = class.to_owned();
    while steps > 0
        invariant
            classes == dom::classes(*db),
            default_of(classes, class@, property@, classes.dom().len()) == default_of(
                classes,
                current@,
                property@,
                steps as nat,
            ),
        decreases steps,
    {
        if let Some(default) = class_default(db, current.as_str(), property) {
            return same_raw(v, &value_from_variant(&default));
        }
        match superclass_of(db, current.as_str()) {
            Some(Some(superclass)) => {
                current = superclass;
            },
            _ => {
                return false;
            },
        }
        steps -= 1;
    }
    false
}

// ---------------------------------------------------------------------------
// Unknown properties of the merged graph
// ---------------------------------------------------------------------------

/// The remarks on the first `n` properties of a row.
pub open spec fn row_unknown(classes: Classes, g: GraphModel, r: int, n: int) -> Seq<
    DiagnosticModel,
>
    decreases n,
{
    if n <= 0 {
        Seq::empty()
    } else {
        let so_far = row_unknown(classes, g, r, n - 1);
        let node = g[r]->0;
        let key = node.properties[n - 1].0;
        if known_property(classes, node.class, key) {
            so_far
        } else {
            so_far.push(
                diagnostics::unknown_property_model(
                    cycles::graph_path(g, r as usize),
                    node.class,
                    key,
                ),
            )
        }
    }
}

/// The remarks on the rows below `n`.
pub open spec fn unknown_properties(classes: Classes, g: GraphModel, n: int) -> Seq<DiagnosticModel>
    decreases n,
{
    if n <= 0 {
        Seq::empty()
    } else {
        let so_far = unknown_properties(classes, g, n - 1);
        match g[n - 1] {
            Some(node) => so_far + row_unknown(classes, g, n - 1, node.properties.len() as int),
            None => so_far,
        }
    }
}

fn scan_row(
    graph: &MergedGraph,
    db: &ReflectionDatabase<'static>,
    node: &MergedInstance,
    r: usize,
    diagnostics: &mut Vec<Diagnostic>,
)
    requires
        r < graph@.len(),
        graph@[r as int] == Some(node@),
    ensures
        diagnostics::diagnostics_view(final(diagnostics)@) == diagnostics::diagnostics_view(
            old(diagnostics)@,
        ) + row_unknown(
            dom::classes(*db),
            graph@,
            r as int,
            node@.properties.len() as int,
        ),
{
    let ghost start = diagnostics::diagnostics_view(diagnostics@);
    let ghost classes = dom::classes(*db);
    let mut path: Option<String> = None;
    let mut i: usize = 0;
    assert(start + row_unknown(classes, graph@, r as int, 0) =~= start);
    while i < node.properties.len()
        invariant
            i <= node.properties.len(),
            classes == dom::classes(*db),
            r < graph@.len(),
            graph@[r as int] == Some(node@),
            path matches Some(p) ==> p@ == cycles::graph_path(graph@, r),
            diagnostics::diagnostics_view(diagnostics@) == start + row_unknown(
                classes,
                graph@,
                r as int,
                i as int,
            ),
        decreases node.properties.len() - i,
    {
        let key = node.properties[i].0.as_str();
        let ghost so_far = row_unknown(classes, graph@, r as int, i as int);
        let ghost now = diagnostics::diagnostics_view(diagnostics@);
        assert(node@.properties[i as int].0 == key@);
        if !is_known_property(db, node.class.as_str(), key) {
            let shown: String = match &path {
                Some(p) => p.clone(),
                None => path_in_graph(graph, r),
            };
            let remark = unknown_property_diagnostic(shown.clone(), node.class.as_str(), key);
            path = Some(shown);
            let ghost added = remark@;
            diagnostics.push(remark);
            proof {
                assert(diagnostics::diagnostics_view(diagnostics@) =~= now.push(added));
                assert((start + so_far).push(added) =~= start + so_far.push(added));
            }
        }
        i += 1;
    }
}

/// Remarks on merged properties that the database does not know. They stay as
/// they are.
pub fn scan_unknown_properties(
    graph: &MergedGraph,
    db: &ReflectionDatabase<'static>,
    diagnostics: &mut Vec<Diagnostic>,
)
    ensures
        diagnostics::diagnostics_view(final(diagnostics)@) == diagnostics::diagnostics_view(
            old(diagnostics)@,
        ) + unknown_properties(dom::classes(*db), graph@, graph@.len() as int),
{
    let ghost start = diagnostics::diagnostics_view(diagnostics@);
    let ghost classes = dom::classes(*db);
    let mut r: usize = 0;
    assert(start + unknown_properties(classes, graph@, 0) =~= start);
    while r < graph.rows
        invariant
            r <= graph.rows,
            classes == dom::classes(*db),
            diagnostics::diagnostics_view(diagnostics@) == start + unknown_properties(
                classes,
                graph@,
                r as int,
            ),
        decreases graph.rows - r,
    {
        if let Some(node) = graph.get(r) {
            let ghost so_far = unknown_properties(classes, graph@, r as int);
            scan_row(graph, db, node, r, diagnostics);
            proof {
                let more = row_unknown(
                    classes,
                    graph@,
                    r as int,
                    node@.properties.len() as int,
                );
                assert((start + so_far) + more =~= start + (so_far + more));
            }
        }
        r += 1;
    }
}

} // verus!
