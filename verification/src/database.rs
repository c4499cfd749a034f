//! Whether the classes of a reflection database fit together, as the readers and the
//! writers of both file formats rely on.

use rbx_reflection::ReflectionDatabase;
use vstd::prelude::*;

use crate::dom;
use crate::dom::{
    class_count, class_has_property, class_names, class_properties, superclass_of, ClassModel, FormModel, PropertyForm,
    PropertyModel, PropertyRecord,
};
use crate::matching::Classes;
use crate::text::{same_text, Text};

verus! {

/// Whether the way up from a class ends within so many steps, at a class without a
/// superclass, and the database has all classes on it.
pub open spec fn rises(classes: Classes, class: Text, steps: nat) -> bool
    decreases steps,
{
    steps > 0 && classes.contains_key(class) && match classes[class].superclass {
        Some(superclass) => rises(classes, superclass, (steps - 1) as nat),
        None => true,
    }
}

/// Whether a class is another or one of its superclasses, within so many steps upwards.
pub open spec fn is_above(classes: Classes, class: Text, above: Text, steps: nat) -> bool
    decreases steps,
{
    steps > 0 && classes.contains_key(class) && (class == above
        || match classes[class].superclass {
        Some(superclass) => is_above(classes, superclass, above, (steps - 1) as nat),
        None => false,
    })
}

/// Whether a name stands for a property that a file can hold: one that is stored in
/// some way, or another name of such a property.
pub open spec fn is_stored(properties: Map<Text, PropertyModel>, name: Text) -> bool {
    properties.contains_key(name) && match properties[name].form {
        FormModel::Unstored => false,
        FormModel::Alias(other) => properties.contains_key(other)
            && match properties[other].form {
            FormModel::Unstored => false,
            FormModel::Alias(_) => false,
            FormModel::Other => false,
            _ => true,
        },
        FormModel::Other => false,
        _ => true,
    }
}

/// Whether names stand for properties that a file can hold.
pub open spec fn are_stored(properties: Map<Text, PropertyModel>, names: Seq<Text>) -> bool {
    forall|i: int| 0 <= i < names.len() ==> is_stored(properties, #[trigger] names[i])
}

/// Whether the names that a property refers to are those of properties of its class.
pub open spec fn refers_soundly(properties: Map<Text, PropertyModel>, form: FormModel) -> bool {
    match form {
        FormModel::Stored => true,
        FormModel::Unstored => true,
        FormModel::StoredAs(name) => properties.contains_key(name),
        FormModel::Moved(..) => true,
        FormModel::Alias(name) => properties.contains_key(name),
        FormModel::Other => false,
    }
}

/// Whether all properties of a class refer soundly to others.
pub open spec fn class_sound(class: ClassModel) -> bool {
    forall|key: Text| #[trigger]
        class.properties.contains_key(key) ==> refers_soundly(
            class.properties,
            class.properties[key].form,
        )
}

/// The name that the property behind a name has itself.
pub open spec fn own_name(properties: Map<Text, PropertyModel>, name: Text) -> Text {
    match properties[name].form {
        FormModel::Alias(other) => properties[other].name,
        _ => properties[name].name,
    }
}

/// Whether a class moves one of its properties to another one that is stored, and how.
pub open spec fn moves(
    classes: Classes,
    class: Text,
    key: Text,
    i: int,
    target: Text,
    how: Text,
) -> bool {
    &&& classes.contains_key(class)
    &&& classes[class].properties.contains_key(key)
    &&& classes[class].properties[key].form matches FormModel::Moved(names, text)
    &&& 0 <= i < names.len()
    &&& is_stored(classes[class].properties, names[i])
    &&& own_name(classes[class].properties, names[i]) == target
    &&& text == how
}

/// Whether, in a class with its superclasses, no two properties are moved to the same
/// one in different ways.
pub open spec fn moves_agree(classes: Classes) -> bool {
    forall|a: Text, p: Text, i: int, b: Text, q: Text, j: int, target: Text, how: Text, other: Text|
        #![trigger moves(classes, a, p, i, target, how), moves(classes, b, q, j, target, other)]
        moves(classes, a, p, i, target, how) && moves(classes, b, q, j, target, other) && is_above(
            classes,
            a,
            b,
            classes.dom().len(),
        ) ==> how == other
}

/// The form that the property behind a name is stored in: that of the property itself,
/// or of the one under whose name it is stored.
pub open spec fn stored_form(properties: Map<Text, PropertyModel>, name: Text) -> FormModel {
    let form = match properties[name].form {
        FormModel::Alias(other) => properties[other].form,
        form => form,
    };
    match form {
        FormModel::StoredAs(other) => properties[other].form,
        form => form,
    }
}

/// Whether a property of a class can be stored where it has been moved to, as far as it
/// has been moved at all.
pub open spec fn can_move(properties: Map<Text, PropertyModel>, name: Text) -> bool {
    match stored_form(properties, name) {
        FormModel::Moved(names, _) => are_stored(properties, names),
        _ => true,
    }
}

/// The nearest of a class and its superclasses that has a property, within so many steps
/// upwards.
pub open spec fn owner(classes: Classes, class: Text, property: Text, steps: nat) -> Option<Text>
    decreases steps,
{
    if steps == 0 || !classes.contains_key(class) {
        None
    } else if classes[class].properties.contains_key(property) {
        Some(class)
    } else {
        match classes[class].superclass {
            Some(superclass) => owner(classes, superclass, property, (steps - 1) as nat),
            None => None,
        }
    }
}

/// Whether an instance of a class can be written with a property. The writer of binary
/// files has no place for a property that was moved to one that is not stored.
pub open spec fn has_place(classes: Classes, class: Text, property: Text) -> bool {
    match owner(classes, class, property, classes.dom().len()) {
        Some(above) => can_move(classes[above].properties, property),
        None => true,
    }
}

/// Whether the classes fit together.
pub open spec fn fits_together(classes: Classes) -> bool {
    &&& forall|class: Text| #[trigger]
        classes.contains_key(class) ==> rises(classes, class, classes.dom().len()) && class_sound(
            classes[class],
        )
    &&& moves_agree(classes)
}

/// Whether the way up from a class ends.
fn does_rise(db: &ReflectionDatabase<'static>, class: &str) -> (res: bool)
    ensures
        res == rises(dom::classes(*db), class@, dom::classes(*db).dom().len()),
{
    let ghost classes = dom::classes(*db);
    let mut steps: usize = class_count(db);
    let mut current: String = class.to_owned();
    while steps > 0
        invariant
            classes == dom::classes(*db),
            rises(classes, class@, classes.dom().len()) == rises(
                classes,
                current@,
                steps as nat,
            ),
        decreases steps,
    {
        match superclass_of(db, current.as_str()) {
            Some(Some(superclass)) => {
                current = superclass;
            },
            Some(None) => {
                return true;
            },
            None => {
                return false;
            },
        }
        steps -= 1;
    }
    false
}

/// Whether a class is another or one of its superclasses.
fn stands_above(db: &ReflectionDatabase<'static>, class: &str, above: &str) -> (res: bool)
    ensures
        res == is_above(dom::classes(*db), class@, above@, dom::classes(*db).dom().len()),
{
    let ghost classes = dom::classes(*db);
    let mut steps: usize = class_count(db);
    let mut current: String = class.to_owned();
    while steps > 0
        invariant
            classes == dom::classes(*db),
            is_above(classes, class@, above@, classes.dom().len()) == is_above(
                classes,
                current@,
                above@,
                steps as nat,
            ),
        decreases steps,
    {
        let next = superclass_of(db, current.as_str());
        if next.is_some() && same_text(current.as_str(), above) {
            return true;
        }
        match next {
            Some(Some(superclass)) => {
                current = superclass;
            },
            _ => {
                return false;
            },
        }
        steps -= 1;
    }
    false
}

/// Where a list of properties has a name.
fn find_property(
    list: &Vec<PropertyRecord>,
    name: &str,
    Ghost(properties): Ghost<Map<Text, PropertyModel>>,
) -> (res: Option<usize>)
    requires
        dom::lists_properties(list@, properties),
    ensures
        match res {
            Some(i) => {
                &&& i < list.len()
                &&& list@[i as int].key@ == name@
                &&& properties.contains_key(name@)
                &&& properties[name@] == list@[i as int]@
            },
            None => !properties.contains_key(name@),
        },
{
    let mut i: usize = 0;
    while i < list.len()
        invariant
            i <= list.len(),
            dom::lists_properties(list@, properties),
            forall|j: int| 0 <= j < i ==> (#[trigger] list@[j]).key@ != name@,
        decreases list.len() - i,
    {
        if same_text(list[i].key.as_str(), name) {
            return Some(i);
        }
        i += 1;
    }
    None
}

/// Whether a name stands for a property that a file can hold.
fn stores(
    list: &Vec<PropertyRecord>,
    name: &str,
    Ghost(properties): Ghost<Map<Text, PropertyModel>>,
) -> (res: bool)
    requires
        dom::lists_properties(list@, properties),
    ensures
        res == is_stored(properties, name@),
{
    match find_property(list, name, Ghost(properties)) {
        None => false,
        Some(i) => match &list[i].form {
            PropertyForm::Unstored => false,
            PropertyForm::Other => false,
            PropertyForm::Alias(other) => match find_property(
                list,
                other.as_str(),
                Ghost(properties),
            ) {
                None => false,
                Some(j) => match &list[j].form {
                    PropertyForm::Unstored => false,
                    PropertyForm::Alias(_) => false,
                    PropertyForm::Other => false,
                    _ => true,
                },
            },
            _ => true,
        },
    }
}

/// Whether all properties of a list refer soundly to others.
fn all_refer_soundly(
    list: &Vec<PropertyRecord>,
    Ghost(properties): Ghost<Map<Text, PropertyModel>>,
) -> (res: bool)
    requires
        dom::lists_properties(list@, properties),
    ensures
        res == forall|key: Text| #[trigger]
            properties.contains_key(key) ==> refers_soundly(properties, properties[key].form),
{
    let mut i: usize = 0;
    while i < list.len()
        invariant
            i <= list.len(),
            dom::lists_properties(list@, properties),
            forall|j: int|
                0 <= j < i ==> refers_soundly(properties, (#[trigger] list@[j]).form@),
        decreases list.len() - i,
    {
        let ghost key = list@[i as int].key@;
        assert(properties.contains_key(key) && properties[key].form == list@[i as int].form@);
        let sound = match &list[i].form {
            PropertyForm::Stored => true,
            PropertyForm::Unstored => true,
            PropertyForm::StoredAs(name) => find_property(
                list,
                name.as_str(),
                Ghost(properties),
            ).is_some(),
            PropertyForm::Alias(name) => find_property(
                list,
                name.as_str(),
                Ghost(properties),
            ).is_some(),
            PropertyForm::Moved(..) => true,
            PropertyForm::Other => false,
        };
        assert(sound == refers_soundly(properties, list@[i as int].form@));
        if !sound {
            return false;
        }
        i += 1;
    }
    true
}

/// Whether names stand for properties that a file can hold.
fn all_stored(
    list: &Vec<PropertyRecord>,
    names: &Vec<String>,
    Ghost(properties): Ghost<Map<Text, PropertyModel>>,
) -> (res: bool)
    requires
        dom::lists_properties(list@, properties),
    ensures
        res == are_stored(properties, dom::texts(names@)),
{
    let mut i: usize = 0;
    while i < names.len()
        invariant
            i <= names.len(),
            dom::lists_properties(list@, properties),
            forall|j: int|
                0 <= j < i ==> is_stored(properties, #[trigger] dom::texts(names@)[j]),
        decreases names.len() - i,
    {
        assert(dom::texts(names@)[i as int] == names@[i as int]@);
        if !stores(list, names[i].as_str(), Ghost(properties)) {
            return false;
        }
        i += 1;
    }
    true
}

/// A move of a property of a class to another property.
struct Move {
    class: String,
    target: String,
    how: String,
}

/// Whether a list has a move.
spec fn is_listed(list: Seq<Move>, class: Text, target: Text, how: Text) -> bool {
    exists|k: int|
        0 <= k < list.len() && (#[trigger] list[k]).class@ == class && list[k].target@ == target
            && list[k].how@ == how
}

/// Whether a class makes a move.
spec fn is_made(classes: Classes, class: Text, target: Text, how: Text) -> bool {
    exists|key: Text, i: int| #[trigger] moves(classes, class, key, i, target, how)
}

/// Whether all moves of a list are made.
spec fn all_made(classes: Classes, list: Seq<Move>) -> bool {
    forall|k: int|
        0 <= k < list.len() ==> is_made(
            classes,
            (#[trigger] list[k]).class@,
            list[k].target@,
            list[k].how@,
        )
}

/// Whether a list has the moves of a property.
spec fn lists_moves_of(classes: Classes, class: Text, key: Text, list: Seq<Move>) -> bool {
    forall|i: int, target: Text, how: Text| #[trigger]
        moves(classes, class, key, i, target, how) ==> is_listed(list, class, target, how)
}

/// Whether a list has the moves of a class.
spec fn lists_moves(classes: Classes, class: Text, list: Seq<Move>) -> bool {
    forall|key: Text, i: int, target: Text, how: Text| #[trigger]
        moves(classes, class, key, i, target, how) ==> is_listed(list, class, target, how)
}

proof fn lemma_listed_stays(before: Seq<Move>, after: Seq<Move>, class: Text, target: Text, how: Text)
    requires
        before.is_prefix_of(after),
        is_listed(before, class, target, how),
    ensures
        is_listed(after, class, target, how),
{
    let k = choose|k: int|
        0 <= k < before.len() && (#[trigger] before[k]).class@ == class && before[k].target@
            == target && before[k].how@ == how;
    assert(after[k] == before[k]);
}

/// Adds the moves of one property.
fn add_moves_of(
    db: &ReflectionDatabase<'static>,
    class: &str,
    list: &Vec<PropertyRecord>,
    at: usize,
    out: &mut Vec<Move>,
)
    requires
        at < list.len(),
        dom::classes(*db).contains_key(class@),
        dom::lists_properties(list@, dom::classes(*db)[class@].properties),
        all_made(dom::classes(*db), old(out)@),
    ensures
        old(out)@.is_prefix_of(final(out)@),
        all_made(dom::classes(*db), final(out)@),
        lists_moves_of(dom::classes(*db), class@, list@[at as int].key@, final(out)@),
{
    let ghost classes = dom::classes(*db);
    let ghost properties = classes[class@].properties;
    let ghost key = list@[at as int].key@;
    let ghost before = out@;
    assert(properties.contains_key(key) && properties[key] == list@[at as int]@);
    if let PropertyForm::Moved(names, how) = &list[at].form {
        let mut i: usize = 0;
        while i < names.len()
            invariant
                i <= names.len(),
                classes == dom::classes(*db),
                classes.contains_key(class@),
                properties == classes[class@].properties,
                properties.contains_key(key),
                properties[key].form == FormModel::Moved(dom::texts(names@), how@),
                dom::lists_properties(list@, properties),
                before.is_prefix_of(out@),
                all_made(classes, out@),
                forall|j: int|
                    0 <= j < i && is_stored(properties, dom::texts(names@)[j]) ==> is_listed(
                        out@,
                        class@,
                        own_name(properties, #[trigger] dom::texts(names@)[j]),
                        how@,
                    ),
            decreases names.len() - i,
        {
            let ghost name = dom::texts(names@)[i as int];
            assert(name == names@[i as int]@);
            let mut own: Option<usize> = None;
            if stores(list, names[i].as_str(), Ghost(properties)) {
                own = find_property(list, names[i].as_str(), Ghost(properties));
            }
            if let Some(x) = own {
                if let PropertyForm::Alias(other) = &list[x].form {
                    own = find_property(list, other.as_str(), Ghost(properties));
                }
            }
            if let Some(x) = own {
                let ghost grown = out@;
                let entry = Move {
                    class: class.to_owned(),
                    target: list[x].name.clone(),
                    how: how.clone(),
                };
                assert(entry.target@ == own_name(properties, name));
                assert(moves(classes, class@, key, i as int, entry.target@, entry.how@));
                out.push(entry);
                proof {
                    assert(out@.last() == entry);
                    assert(is_listed(out@, class@, own_name(properties, name), how@)) by {
                        assert(out@[grown.len() as int].class@ == class@);
                    }
                    assert forall|j: int|
                        0 <= j < i && is_stored(properties, dom::texts(names@)[j]) implies is_listed(
                        out@,
                        class@,
                        own_name(properties, #[trigger] dom::texts(names@)[j]),
                        how@,
                    ) by {
                        lemma_listed_stays(
                            grown,
                            out@,
                            class@,
                            own_name(properties, dom::texts(names@)[j]),
                            how@,
                        );
                    }
                    assert forall|k: int| 0 <= k < out@.len() implies is_made(
                        classes,
                        (#[trigger] out@[k]).class@,
                        out@[k].target@,
                        out@[k].how@,
                    ) by {
                        if k < grown.len() {
                            assert(out@[k] == grown[k]);
                        }
                    }
                }
            }
            i += 1;
        }
    }
}

/// Adds the moves of a class.
fn add_moves(
    db: &ReflectionDatabase<'static>,
    class: &str,
    list: &Vec<PropertyRecord>,
    out: &mut Vec<Move>,
)
    requires
        dom::classes(*db).contains_key(class@),
        dom::lists_properties(list@, dom::classes(*db)[class@].properties),
        all_made(dom::classes(*db), old(out)@),
    ensures
        old(out)@.is_prefix_of(final(out)@),
        all_made(dom::classes(*db), final(out)@),
        lists_moves(dom::classes(*db), class@, final(out)@),
{
    let ghost classes = dom::classes(*db);
    let ghost before = out@;
    let mut at: usize = 0;
    while at < list.len()
        invariant
            at <= list.len(),
            classes == dom::classes(*db),
            classes.contains_key(class@),
            dom::lists_properties(list@, classes[class@].properties),
            before.is_prefix_of(out@),
            all_made(classes, out@),
            forall|x: int|
                0 <= x < at ==> lists_moves_of(
                    classes,
                    class@,
                    (#[trigger] list@[x]).key@,
                    out@,
                ),
        decreases list.len() - at,
    {
        let ghost grown = out@;
        add_moves_of(db, class, list, at, out);
        proof {
            assert forall|x: int| 0 <= x < at implies lists_moves_of(
                classes,
                class@,
                (#[trigger] list@[x]).key@,
                out@,
            ) by {
                assert forall|i: int, target: Text, how: Text| #[trigger]
                    moves(classes, class@, list@[x].key@, i, target, how) implies is_listed(
                    out@,
                    class@,
                    target,
                    how,
                ) by {
                    lemma_listed_stays(grown, out@, class@, target, how);
                }
            }
        }
        at += 1;
    }
    proof {
        assert forall|key: Text, i: int, target: Text, how: Text| #[trigger]
            moves(classes, class@, key, i, target, how) implies is_listed(
            out@,
            class@,
            target,
            how,
        ) by {
            let x = choose|x: int| 0 <= x < list@.len() && (#[trigger] list@[x]).key@ == key;
            assert(lists_moves_of(classes, class@, list@[x].key@, out@));
        }
    }
}

/// Whether the moves of a list agree.
fn listed_moves_agree(db: &ReflectionDatabase<'static>, list: &Vec<Move>) -> (res: bool)
    requires
        all_made(dom::classes(*db), list@),
        forall|class: Text| #[trigger]
            dom::classes(*db).contains_key(class) ==> lists_moves(dom::classes(*db), class, list@),
    ensures
        res == moves_agree(dom::classes(*db)),
{
    let ghost classes = dom::classes(*db);
    let ghost n = classes.dom().len();
    let mut i: usize = 0;
    while i < list.len()
        invariant
            i <= list.len(),
            classes == dom::classes(*db),
            n == classes.dom().len(),
            all_made(classes, list@),
            forall|x: int, y: int|
                #![trigger list@[x], list@[y]]
                0 <= x < i && 0 <= y < list.len() ==> pair_agrees(classes, list@[x], list@[y]),
        decreases list.len() - i,
    {
        let mut j: usize = 0;
        while j < list.len()
            invariant
                i < list.len(),
                j <= list.len(),
                classes == dom::classes(*db),
                n == classes.dom().len(),
                all_made(classes, list@),
                forall|x: int, y: int|
                    #![trigger list@[x], list@[y]]
                    0 <= x < i && 0 <= y < list.len() ==> pair_agrees(classes, list@[x], list@[y]),
                forall|y: int|
                    0 <= y < j ==> pair_agrees(classes, list@[i as int], #[trigger] list@[y]),
            decreases list.len() - j,
        {
            let a = &list[i];
            let b = &list[j];
            if same_text(a.target.as_str(), b.target.as_str()) && !same_text(
                a.how.as_str(),
                b.how.as_str(),
            ) && stands_above(db, a.class.as_str(), b.class.as_str()) {
                proof {
                    assert(is_made(classes, list@[i as int].class@, a.target@, a.how@));
                    assert(is_made(classes, list@[j as int].class@, b.target@, b.how@));
                    let (p, x) = choose|key: Text, x: int| #[trigger]
                        moves(classes, a.class@, key, x, a.target@, a.how@);
                    let (q, y) = choose|key: Text, y: int| #[trigger]
                        moves(classes, b.class@, key, y, b.target@, b.how@);
                    assert(moves(classes, a.class@, p, x, a.target@, a.how@));
                    assert(moves(classes, b.class@, q, y, a.target@, b.how@));
                }
                return false;
            }
            assert(pair_agrees(classes, list@[i as int], list@[j as int]));
            j += 1;
        }
        i += 1;
    }
    proof {
        assert forall|
            a: Text,
            p: Text,
            i: int,
            b: Text,
            q: Text,
            j: int,
            target: Text,
            how: Text,
            other: Text,
        |
            #![trigger moves(classes, a, p, i, target, how), moves(classes, b, q, j, target, other)]
            moves(classes, a, p, i, target, how) && moves(classes, b, q, j, target, other)
                && is_above(classes, a, b, n) implies how == other by {
            assert(lists_moves(classes, a, list@));
            assert(lists_moves(classes, b, list@));
            let x = choose|x: int|
                0 <= x < list@.len() && (#[trigger] list@[x]).class@ == a && list@[x].target@
                    == target && list@[x].how@ == how;
            let y = choose|y: int|
                0 <= y < list@.len() && (#[trigger] list@[y]).class@ == b && list@[y].target@
                    == target && list@[y].how@ == other;
            assert(pair_agrees(classes, list@[x], list@[y]));
        }
    }
    true
}

/// Whether two moves agree: they go to different properties, or are made in the same way,
/// or the second is not made by the class of the first or a superclass of it.
spec fn pair_agrees(classes: Classes, a: Move, b: Move) -> bool {
    a.target@ == b.target@ && is_above(classes, a.class@, b.class@, classes.dom().len())
        ==> a.how@ == b.how@
}

/// Whether the classes of a database fit together.
pub fn is_consistent(db: &ReflectionDatabase<'static>) -> (res: bool)
    ensures
        res == fits_together(dom::classes(*db)),
{
    let ghost classes = dom::classes(*db);
    let names = class_names(db);
    let mut found: Vec<Move> = Vec::new();
    let mut i: usize = 0;
    while i < names.len()
        invariant
            i <= names.len(),
            classes == dom::classes(*db),
            forall|class: Text| #[trigger]
                classes.contains_key(class) == dom::texts(names@).contains(class),
            all_made(classes, found@),
            forall|x: int|
                0 <= x < i ==> rises(
                    classes,
                    #[trigger] dom::texts(names@)[x],
                    classes.dom().len(),
                ) && class_sound(classes[dom::texts(names@)[x]]) && lists_moves(
                    classes,
                    dom::texts(names@)[x],
                    found@,
                ),
        decreases names.len() - i,
    {
        let name = names[i].as_str();
        assert(dom::texts(names@)[i as int] == name@);
        assert(classes.contains_key(name@));
        if !does_rise(db, name) {
            return false;
        }
        let list = class_properties(db, name);
        if !all_refer_soundly(&list, Ghost(classes[name@].properties)) {
            return false;
        }
        assert(class_sound(classes[name@]));
        let ghost before = found@;
        add_moves(db, name, &list, &mut found);
        proof {
            assert forall|x: int| 0 <= x < i implies lists_moves(
                classes,
                #[trigger] dom::texts(names@)[x],
                found@,
            ) by {
                let class = dom::texts(names@)[x];
                assert forall|key: Text, y: int, target: Text, how: Text| #[trigger]
                    moves(classes, class, key, y, target, how) implies is_listed(
                    found@,
                    class,
                    target,
                    how,
                ) by {
                    lemma_listed_stays(before, found@, class, target, how);
                }
            }
        }
        i += 1;
    }
    proof {
        assert forall|class: Text| #[trigger] classes.contains_key(class) implies rises(
            classes,
            class,
            classes.dom().len(),
        ) && class_sound(classes[class]) && lists_moves(classes, class, found@) by {
            let x = choose|x: int|
                0 <= x < dom::texts(names@).len() && dom::texts(names@)[x] == class;
            assert(dom::texts(names@)[x] == class);
        }
    }
    listed_moves_agree(db, &found)
}

/// Whether the property behind a name can be stored where it has been moved to.
fn does_move(
    list: &Vec<PropertyRecord>,
    at: usize,
    Ghost(properties): Ghost<Map<Text, PropertyModel>>,
) -> (res: bool)
    requires
        at < list.len(),
        dom::lists_properties(list@, properties),
        forall|key: Text| #[trigger]
            properties.contains_key(key) ==> refers_soundly(properties, properties[key].form),
    ensures
        res == can_move(properties, list@[at as int].key@),
{
    let ghost name = list@[at as int].key@;
    assert(properties.contains_key(name) && properties[name] == list@[at as int]@);
    let mut x: usize = at;
    if let PropertyForm::Alias(other) = &list[at].form {
        if let Some(y) = find_property(list, other.as_str(), Ghost(properties)) {
            x = y;
        }
    }
    if let PropertyForm::StoredAs(other) = &list[x].form {
        assert(properties.contains_key(list@[x as int].key@));
        if let Some(y) = find_property(list, other.as_str(), Ghost(properties)) {
            x = y;
        }
    }
    assert(stored_form(properties, name) == list@[x as int].form@);
    match &list[x].form {
        PropertyForm::Moved(names, _) => all_stored(list, names, Ghost(properties)),
        _ => true,
    }
}

/// A property of a class that cannot be stored.
pub struct Stray {
    pub class: String,
    pub property: String,
}

/// Whether a list has a property of a class.
pub open spec fn lists_stray(list: Seq<Stray>, class: Text, property: Text) -> bool {
    exists|k: int|
        0 <= k < list.len() && (#[trigger] list[k]).class@ == class && list[k].property@ == property
}

/// Whether a list has the properties of a class that cannot be stored, of those that it
/// has itself.
pub open spec fn lists_strays(classes: Classes, class: Text, list: Seq<Stray>) -> bool {
    forall|property: Text| #[trigger]
        classes[class].properties.contains_key(property) ==> (lists_stray(list, class, property)
            == !can_move(classes[class].properties, property))
}

/// Adds the properties of a class that cannot be stored.
fn add_strays(
    db: &ReflectionDatabase<'static>,
    class: &str,
    list: &Vec<PropertyRecord>,
    out: &mut Vec<Stray>,
)
    requires
        dom::classes(*db).contains_key(class@),
        dom::lists_properties(list@, dom::classes(*db)[class@].properties),
        class_sound(dom::classes(*db)[class@]),
        forall|k: int|
            0 <= k < old(out)@.len() ==> !can_move(
                dom::classes(*db)[(#[trigger] old(out)@[k]).class@].properties,
                old(out)@[k].property@,
            ),
    ensures
        old(out)@.is_prefix_of(final(out)@),
        forall|k: int|
            0 <= k < final(out)@.len() ==> !can_move(
                dom::classes(*db)[(#[trigger] final(out)@[k]).class@].properties,
                final(out)@[k].property@,
            ),
        lists_strays(dom::classes(*db), class@, final(out)@),
{
    let ghost classes = dom::classes(*db);
    let ghost properties = classes[class@].properties;
    let ghost before = out@;
    let mut at: usize = 0;
    while at < list.len()
        invariant
            at <= list.len(),
            classes == dom::classes(*db),
            classes.contains_key(class@),
            properties == classes[class@].properties,
            dom::lists_properties(list@, properties),
            class_sound(classes[class@]),
            before.is_prefix_of(out@),
            forall|k: int|
                0 <= k < out@.len() ==> !can_move(
                    classes[(#[trigger] out@[k]).class@].properties,
                    out@[k].property@,
                ),
            forall|x: int|
                0 <= x < at && !can_move(properties, (#[trigger] list@[x]).key@) ==> lists_stray(
                    out@,
                    class@,
                    list@[x].key@,
                ),
        decreases list.len() - at,
    {
        if !does_move(list, at, Ghost(properties)) {
            let ghost grown = out@;
            let entry = Stray { class: class.to_owned(), property: list[at].key.clone() };
            out.push(entry);
            proof {
                assert(out@[grown.len() as int] == entry);
                assert forall|x: int|
                    0 <= x <= at && !can_move(
                        properties,
                        (#[trigger] list@[x]).key@,
                    ) implies lists_stray(out@, class@, list@[x].key@) by {
                    if x < at {
                        let k = choose|k: int|
                            0 <= k < grown.len() && (#[trigger] grown[k]).class@ == class@
                                && grown[k].property@ == list@[x].key@;
                        assert(out@[k] == grown[k]);
                    }
                }
                assert forall|k: int| 0 <= k < out@.len() implies !can_move(
                    classes[(#[trigger] out@[k]).class@].properties,
                    out@[k].property@,
                ) by {
                    if k < grown.len() {
                        assert(out@[k] == grown[k]);
                    }
                }
            }
        }
        at += 1;
    }
    proof {
        assert forall|property: Text| #[trigger] properties.contains_key(property) implies (
        lists_stray(out@, class@, property) == !can_move(properties, property)) by {
            let x = choose|x: int| 0 <= x < list@.len() && (#[trigger] list@[x]).key@ == property;
            assert(list@[x].key@ == property);
        }
    }
}

/// The properties of the classes that cannot be stored.
pub fn find_strays(db: &ReflectionDatabase<'static>) -> (res: Vec<Stray>)
    requires
        fits_together(dom::classes(*db)),
    ensures
        forall|class: Text| #[trigger]
            dom::classes(*db).contains_key(class) ==> lists_strays(
                dom::classes(*db),
                class,
                res@,
            ),
{
    let ghost classes = dom::classes(*db);
    let names = class_names(db);
    let mut found: Vec<Stray> = Vec::new();
    let mut i: usize = 0;
    while i < names.len()
        invariant
            i <= names.len(),
            classes == dom::classes(*db),
            fits_together(classes),
            forall|class: Text| #[trigger]
                classes.contains_key(class) == dom::texts(names@).contains(class),
            forall|k: int|
                0 <= k < found@.len() ==> !can_move(
                    classes[(#[trigger] found@[k]).class@].properties,
                    found@[k].property@,
                ),
            forall|x: int|
                0 <= x < i ==> lists_strays(classes, #[trigger] dom::texts(names@)[x], found@),
        decreases names.len() - i,
    {
        let name = names[i].as_str();
        assert(dom::texts(names@)[i as int] == name@);
        assert(classes.contains_key(name@));
        let list = class_properties(db, name);
        let ghost before = found@;
        add_strays(db, name, &list, &mut found);
        proof {
            assert forall|x: int| 0 <= x < i implies lists_strays(
                classes,
                #[trigger] dom::texts(names@)[x],
                found@,
            ) by {
                let class = dom::texts(names@)[x];
                assert forall|property: Text| #[trigger]
                    classes[class].properties.contains_key(property) implies (lists_stray(
                    found@,
                    class,
                    property,
                ) == !can_move(classes[class].properties, property)) by {
                    if lists_stray(before, class, property) {
                        let k = choose|k: int|
                            0 <= k < before.len() && (#[trigger] before[k]).class@ == class
                                && before[k].property@ == property;
                        assert(found@[k] == before[k]);
                    }
                }
            }
        }
        i += 1;
    }
    proof {
        assert forall|class: Text| #[trigger] classes.contains_key(class) implies lists_strays(
            classes,
            class,
            found@,
        ) by {
            let x = choose|x: int|
                0 <= x < dom::texts(names@).len() && dom::texts(names@)[x] == class;
            assert(dom::texts(names@)[x] == class);
        }
    }
    found
}

/// The nearest of a class and its superclasses that has a property.
fn find_owner(db: &ReflectionDatabase<'static>, class: &str, property: &str) -> (res: Option<
    String,
>)
    ensures
        match res {
            Some(above) => owner(
                dom::classes(*db),
                class@,
                property@,
                dom::classes(*db).dom().len(),
            ) == Some(above@),
            None => owner(
                dom::classes(*db),
                class@,
                property@,
                dom::classes(*db).dom().len(),
            ) is None,
        },
{
    let ghost classes = dom::classes(*db);
    let mut steps: usize = class_count(db);
    let mut current: String = class.to_owned();
    while steps > 0
        invariant
            classes == dom::classes(*db),
            owner(classes, class@, property@, classes.dom().len()) == owner(
                classes,
                current@,
                property@,
                steps as nat,
            ),
        decreases steps,
    {
        if class_has_property(db, current.as_str(), property) {
            return Some(current);
        }
        match superclass_of(db, current.as_str()) {
            Some(Some(superclass)) => {
                current = superclass;
            },
            _ => {
                return None;
            },
        }
        steps -= 1;
    }
    None
}

proof fn lemma_owner_has(classes: Classes, class: Text, property: Text, steps: nat)
    ensures
        match owner(classes, class, property, steps) {
            Some(above) => classes.contains_key(above) && classes[above].properties.contains_key(
                property,
            ),
            None => true,
        },
    decreases steps,
{
    if steps > 0 && classes.contains_key(class) && !classes[class].properties.contains_key(
        property,
    ) {
        if let Some(superclass) = classes[class].superclass {
            lemma_owner_has(classes, superclass, property, (steps - 1) as nat);
        }
    }
}

/// Whether an instance of a class can be written with a property.
pub fn finds_place(
    db: &ReflectionDatabase<'static>,
    strays: &Vec<Stray>,
    class: &str,
    property: &str,
) -> (res: bool)
    requires
        forall|c: Text| #[trigger]
            dom::classes(*db).contains_key(c) ==> lists_strays(dom::classes(*db), c, strays@),
    ensures
        res == has_place(dom::classes(*db), class@, property@),
{
    let ghost classes = dom::classes(*db);
    let ghost above = owner(classes, class@, property@, classes.dom().len());
    proof {
        lemma_owner_has(classes, class@, property@, classes.dom().len());
    }
    let mut k: usize = 0;
    while k < strays.len()
        invariant
            k <= strays.len(),
            classes == dom::classes(*db),
            above == owner(classes, class@, property@, classes.dom().len()),
            above is Some ==> classes.contains_key(above->0)
                && classes[above->0].properties.contains_key(property@),
            forall|c: Text| #[trigger]
                classes.contains_key(c) ==> lists_strays(classes, c, strays@),
            forall|j: int|
                0 <= j < k && (#[trigger] strays@[j]).property@ == property@ ==> above != Some(
                    strays@[j].class@,
                ),
        decreases strays.len() - k,
    {
        if same_text(strays[k].property.as_str(), property) {
            if let Some(found) = find_owner(db, class, property) {
                if same_text(found.as_str(), strays[k].class.as_str()) {
                    assert(lists_strays(classes, found@, strays@));
                    assert(lists_stray(strays@, found@, property@)) by {
                        assert(strays@[k as int].class@ == found@);
                    }
                    return false;
                }
            }
        }
        k += 1;
    }
    proof {
        if let Some(c) = above {
            assert(lists_strays(classes, c, strays@));
        }
    }
    true
}

// ---------------------------------------------------------------------------
// Properties that the reader of binary files skips
// ---------------------------------------------------------------------------

/// Whether the property behind a name is one that is not stored.
pub open spec fn is_unstored(properties: Map<Text, PropertyModel>, name: Text) -> bool {
    match properties[name].form {
        FormModel::Unstored => true,
        FormModel::Alias(other) => properties[other].form is Unstored,
        _ => false,
    }
}

/// Whether a property of a class is not stored, by the nearest of the class and its
/// superclasses that has it.
pub open spec fn owner_drops(classes: Classes, class: Text, property: Text) -> bool {
    classes.contains_key(class) && match owner(classes, class, property, classes.dom().len()) {
        Some(above) => is_unstored(classes[above].properties, property),
        None => false,
    }
}

/// Whether bytes name a class and a property of it that is not stored.
pub open spec fn is_skipped(classes: Classes, class: Seq<u8>, property: Seq<u8>) -> bool {
    exists|c: Text, p: Text| #[trigger]
        owner_drops(classes, c, p) && vstd::utf8::encode_utf8(c) == class && vstd::utf8::encode_utf8(p) == property
}

proof fn lemma_spelling(a: Text, b: Text)
    requires
        vstd::utf8::encode_utf8(a) == vstd::utf8::encode_utf8(b),
    ensures
        a == b,
{
    vstd::utf8::encode_utf8_decode_utf8(a);
    vstd::utf8::encode_utf8_decode_utf8(b);
}

/// Whether bytes are those of a text.
fn spells(text: &str, bytes: &[u8]) -> (res: bool)
    ensures
        res == (vstd::utf8::encode_utf8(text@) == bytes@),
{
    let own = text.as_bytes();
    if own.len() != bytes.len() {
        return false;
    }
    let mut i: usize = 0;
    while i < own.len()
        invariant
            own@ == vstd::utf8::encode_utf8(text@),
            i <= own.len() == bytes.len(),
            forall|j: int| 0 <= j < i ==> own@[j] == bytes@[j],
        decreases own.len() - i,
    {
        if own[i] != bytes[i] {
            return false;
        }
        i += 1;
    }
    assert(own@ =~= bytes@);
    true
}

/// The property of a list that bytes name.
fn find_spelled(list: &Vec<PropertyRecord>, bytes: &[u8]) -> (res: Option<usize>)
    ensures
        match res {
            Some(i) => i < list.len() && vstd::utf8::encode_utf8(list@[i as int].key@) == bytes@,
            None => forall|j: int|
                0 <= j < list@.len() ==> vstd::utf8::encode_utf8((#[trigger] list@[j]).key@) != bytes@,
        },
{
    let mut i: usize = 0;
    while i < list.len()
        invariant
            i <= list.len(),
            forall|j: int| 0 <= j < i ==> vstd::utf8::encode_utf8((#[trigger] list@[j]).key@) != bytes@,
        decreases list.len() - i,
    {
        if spells(list[i].key.as_str(), bytes) {
            return Some(i);
        }
        i += 1;
    }
    None
}

/// Whether a property of a list is not stored.
fn drops(
    list: &Vec<PropertyRecord>,
    at: usize,
    Ghost(properties): Ghost<Map<Text, PropertyModel>>,
) -> (res: bool)
    requires
        at < list.len(),
        dom::lists_properties(list@, properties),
        forall|key: Text| #[trigger]
            properties.contains_key(key) ==> refers_soundly(properties, properties[key].form),
    ensures
        res == is_unstored(properties, list@[at as int].key@),
{
    let ghost name = list@[at as int].key@;
    assert(properties.contains_key(name) && properties[name] == list@[at as int]@);
    match &list[at].form {
        PropertyForm::Unstored => true,
        PropertyForm::Alias(other) => match find_property(
            list,
            other.as_str(),
            Ghost(properties),
        ) {
            Some(x) => match &list[x].form {
                PropertyForm::Unstored => true,
                _ => false,
            },
            None => false,
        },
        _ => false,
    }
}

/// Whether bytes name a property of a class that is not stored.
fn class_skips(db: &ReflectionDatabase<'static>, class: &str, property: &[u8]) -> (res: bool)
    requires
        fits_together(dom::classes(*db)),
        dom::classes(*db).contains_key(class@),
    ensures
        res == exists|p: Text| #[trigger]
            owner_drops(dom::classes(*db), class@, p) && vstd::utf8::encode_utf8(p) == property@,
{
    let ghost classes = dom::classes(*db);
    let ghost n = classes.dom().len();
    let mut steps: usize = class_count(db);
    let mut current: String = class.to_owned();
    while steps > 0
        invariant
            classes == dom::classes(*db),
            n == classes.dom().len(),
            fits_together(classes),
            classes.contains_key(class@),
            classes.contains_key(current@),
            forall|p: Text|
                vstd::utf8::encode_utf8(p) == property@ ==> #[trigger] owner(classes, class@, p, n) == owner(
                    classes,
                    current@,
                    p,
                    steps as nat,
                ),
        decreases steps,
    {
        let list = class_properties(db, current.as_str());
        let ghost properties = classes[current@].properties;
        assert(class_sound(classes[current@]));
        match find_spelled(&list, property) {
            Some(at) => {
                let res = drops(&list, at, Ghost(properties));
                proof {
                    let name = list@[at as int].key@;
                    assert(properties.contains_key(name));
                    assert(owner(classes, class@, name, n) == Some(current@));
                    assert(owner_drops(classes, class@, name) == res);
                    if exists|p: Text| #[trigger]
                        owner_drops(classes, class@, p) && vstd::utf8::encode_utf8(p) == property@ {
                        let p = choose|p: Text| #[trigger]
                            owner_drops(classes, class@, p) && vstd::utf8::encode_utf8(p) == property@;
                        lemma_spelling(p, name);
                    }
                }
                return res;
            },
            None => {
                proof {
                    assert forall|p: Text| vstd::utf8::encode_utf8(p) == property@ implies !(
                    #[trigger] properties.contains_key(p)) by {
                        if properties.contains_key(p) {
                            let i = choose|i: int|
                                0 <= i < list@.len() && (#[trigger] list@[i]).key@ == p;
                            assert(list@[i].key@ == p);
                        }
                    }
                }
            },
        }
        match superclass_of(db, current.as_str()) {
            Some(Some(superclass)) => {
                proof {
                    assert(rises(classes, current@, n));
                    assert(rises(classes, superclass@, (n - 1) as nat));
                    assert forall|p: Text| vstd::utf8::encode_utf8(p) == property@ implies #[trigger] owner(
                        classes,
                        class@,
                        p,
                        n,
                    ) == owner(classes, superclass@, p, (steps - 1) as nat) by {
                        assert(!properties.contains_key(p));
                    }
                }
                current = superclass;
            },
            _ => {
                proof {
                    assert forall|p: Text| vstd::utf8::encode_utf8(p) == property@ implies !(
                    #[trigger] owner_drops(classes, class@, p)) by {
                        assert(!properties.contains_key(p));
                        assert(owner(classes, class@, p, n) is None);
                    }
                }
                return false;
            },
        }
        steps -= 1;
    }
    false
}

/// Whether bytes name a class and a property of it that is not stored.
pub fn skips_property(db: &ReflectionDatabase<'static>, class: &[u8], property: &[u8]) -> (res:
    bool)
    requires
        fits_together(dom::classes(*db)),
    ensures
        res == is_skipped(dom::classes(*db), class@, property@),
{
    let ghost classes = dom::classes(*db);
    let names = class_names(db);
    let mut i: usize = 0;
    while i < names.len()
        invariant
            i <= names.len(),
            classes == dom::classes(*db),
            fits_together(classes),
            forall|c: Text| #[trigger]
                classes.contains_key(c) == dom::texts(names@).contains(c),
            forall|j: int|
                0 <= j < i ==> vstd::utf8::encode_utf8(#[trigger] dom::texts(names@)[j]) != class@,
        decreases names.len() - i,
    {
        let name = names[i].as_str();
        assert(dom::texts(names@)[i as int] == name@);
        if spells(name, class) {
            assert(classes.contains_key(name@));
            let res = class_skips(db, name, property);
            proof {
                if is_skipped(classes, class@, property@) {
                    let (c, p) = choose|c: Text, p: Text| #[trigger]
                        owner_drops(classes, c, p) && vstd::utf8::encode_utf8(c) == class@ && vstd::utf8::encode_utf8(p)
                            == property@;
                    lemma_spelling(c, name@);
                }
            }
            return res;
        }
        i += 1;
    }
    proof {
        if is_skipped(classes, class@, property@) {
            let (c, p) = choose|c: Text, p: Text| #[trigger]
                owner_drops(classes, c, p) && vstd::utf8::encode_utf8(c) == class@ && vstd::utf8::encode_utf8(p)
                    == property@;
            assert(classes.contains_key(c));
            let x = choose|x: int| 0 <= x < dom::texts(names@).len() && dom::texts(names@)[x] == c;
            assert(dom::texts(names@)[x] == c);
        }
    }
    false
}

} // verus!
