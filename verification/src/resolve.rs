//! How the caller decides conflicts: a side for all of them, or a side for a
//! particular one.

use vstd::prelude::*;

use crate::conflict::ConflictKind;
use crate::diagnostics;
use crate::text::{same_text, Text};

verus! {

/// Which side of the merge to take.
#[derive(Debug, Clone, Copy, PartialEq, Eq, Structural)]
pub enum Side {
    Base,
    Ours,
    Theirs,
}

/// What an override is for: the kind of a conflict, the path of the instance and
/// the property, if the conflict is about one.
pub type OverrideKey = (ConflictKind, Text, Option<Text>);

/// The decision for one particular conflict.
#[derive(Debug, Clone)]
pub struct Override {
    pub kind: ConflictKind,
    pub path: String,
    pub property: Option<String>,
    pub side: Side,
}

impl Override {
    pub open spec fn key(self) -> OverrideKey {
        (self.kind, self.path@, diagnostics::option_text(self.property))
    }
}

/// Decisions on conflicts. Each conflict has one override at most.
#[derive(Debug, Clone)]
pub struct Resolutions {
    default: Option<Side>,
    overrides: Vec<Override>,
}

/// The mathematical counterpart of [`Resolutions`].
pub ghost struct ResolutionsModel {
    pub default: Option<Side>,
    pub overrides: Map<OverrideKey, Side>,
}

/// The side that a conflict is decided for: its own override, else the default.
pub open spec fn resolution(
    r: ResolutionsModel,
    kind: ConflictKind,
    path: Text,
    property: Option<Text>,
) -> Option<Side> {
    if r.overrides.contains_key((kind, path, property)) {
        Some(r.overrides[(kind, path, property)])
    } else {
        r.default
    }
}

/// No conflict is decided.
pub open spec fn undecided(r: ResolutionsModel) -> bool {
    &&& r.default is None
    &&& forall|key: OverrideKey| !(#[trigger] r.overrides.contains_key(key))
}

/// The place of the last override with that key; minus one without one.
spec fn last_override(s: Seq<Override>, key: OverrideKey) -> int
    decreases s.len(),
{
    if s.len() == 0 {
        -1
    } else if s.last().key() == key {
        s.len() - 1
    } else {
        last_override(s.drop_last(), key)
    }
}

proof fn lemma_last_override(s: Seq<Override>, key: OverrideKey, i: int)
    requires
        -1 <= i < s.len(),
        i >= 0 ==> s[i].key() == key,
        forall|j: int| i < j < s.len() ==> (#[trigger] s[j]).key() != key,
    ensures
        last_override(s, key) == i,
    decreases s.len(),
{
    if s.len() > 0 && i < s.len() - 1 {
        let t = s.drop_last();
        assert forall|j: int| i < j < t.len() implies (#[trigger] t[j]).key() != key by {
            assert(t[j] == s[j]);
        }
        lemma_last_override(t, key, i);
    }
}

proof fn lemma_last_override_found(s: Seq<Override>, key: OverrideKey)
    ensures
        -1 <= last_override(s, key) < s.len(),
        last_override(s, key) >= 0 ==> s[last_override(s, key)].key() == key,
    decreases s.len(),
{
    if s.len() > 0 && s.last().key() != key {
        lemma_last_override_found(s.drop_last(), key);
    }
}

spec fn overrides_view(s: Seq<Override>) -> Map<OverrideKey, Side> {
    Map::new(
        |key: OverrideKey| last_override(s, key) >= 0,
        |key: OverrideKey| s[last_override(s, key)].side,
    )
}

impl View for Resolutions {
    type V = ResolutionsModel;

    closed spec fn view(&self) -> ResolutionsModel {
        ResolutionsModel { default: self.default, overrides: overrides_view(self.overrides@) }
    }
}

fn same_property(a: &Option<String>, b: Option<&str>) -> (res: bool)
    ensures
        res == (diagnostics::option_text(*a) == (match b {
            Some(b) => Some(b@),
            None => None::<Text>,
        })),
{
    match (a, b) {
        (Some(a), Some(b)) => same_text(a.as_str(), b),
        (None, None) => true,
        _ => false,
    }
}

impl Resolutions {
    /// No decisions: every conflict is reported.
    pub fn none() -> (res: Self)
        ensures
            res@.default is None,
            res@.overrides == Map::<OverrideKey, Side>::empty(),
    {
        let res = Resolutions { default: None, overrides: Vec::new() };
        assert(res@.overrides =~= Map::<OverrideKey, Side>::empty());
        res
    }

    /// Takes `side` for every conflict that has no override.
    pub fn take(side: Side) -> (res: Self)
        ensures
            res@.default == Some(side),
            res@.overrides == Map::<OverrideKey, Side>::empty(),
    {
        let res = Resolutions { default: Some(side), overrides: Vec::new() };
        assert(res@.overrides =~= Map::<OverrideKey, Side>::empty());
        res
    }

    /// Takes `side` for one particular conflict. The property is absent where
    /// the conflict is about the whole instance.
    pub fn resolve(
        self,
        kind: ConflictKind,
        path: &str,
        property: Option<String>,
        side: Side,
    ) -> (res: Self)
        ensures
            res@.default == self@.default,
            res@.overrides == self@.overrides.insert(
                (kind, path@, diagnostics::option_text(property)),
                side,
            ),
    {
        let ghost before = self.overrides@;
        let ghost at = (kind, path@, diagnostics::option_text(property));
        let mut overrides = self.overrides;
        overrides.push(Override { kind, path: path.to_owned(), property, side });
        let res = Resolutions { default: self.default, overrides };
        proof {
            let after = overrides@;
            assert(after.drop_last() =~= before);
            assert(after.last().key() == at);
            assert forall|key: OverrideKey| #[trigger] last_override(after, key) == (if key == at {
                before.len() as int
            } else {
                last_override(before, key)
            }) by {}
            assert forall|key: OverrideKey|
                overrides_view(before).contains_key(key) && key != at implies #[trigger] overrides_view(
                after,
            )[key] == overrides_view(before)[key] by {
                lemma_last_override_found(before, key);
                assert(last_override(after, key) == last_override(before, key));
            }
            assert(res@.overrides =~= self@.overrides.insert(at, side));
        }
        res
    }

    /// The side that a conflict is decided for.
    pub fn lookup(&self, kind: ConflictKind, path: &str, property: Option<&str>) -> (res: Option<
        Side,
    >)
        ensures
            res == resolution(
                self@,
                kind,
                path@,
                match property {
                    Some(p) => Some(p@),
                    None => None,
                },
            ),
    {
        let ghost wanted = (
            kind,
            path@,
            match property {
                Some(p) => Some(p@),
                None => None,
            },
        );
        let mut i: usize = self.overrides.len();
        while i > 0
            invariant
                i <= self.overrides.len(),
                wanted == (
                    kind,
                    path@,
                    match property {
                        Some(p) => Some(p@),
                        None => None,
                    },
                ),
                forall|j: int|
                    i <= j < self.overrides@.len() ==> (#[trigger] self.overrides@[j]).key()
                        != wanted,
            decreases i,
        {
            i -= 1;
            let entry = &self.overrides[i];
            if entry.kind == kind && same_text(entry.path.as_str(), path) && same_property(
                &entry.property,
                property,
            ) {
                proof {
                    assert(self.overrides@[i as int].key() == wanted);
                    lemma_last_override(self.overrides@, wanted, i as int);
                }
                return Some(entry.side);
            }
            assert(self.overrides@[i as int].key() != wanted);
        }
        proof {
            lemma_last_override(self.overrides@, wanted, -1);
        }
        self.default
    }
}

impl Default for Resolutions {
    fn default() -> (res: Self)
        ensures
            res@.default is None,
            res@.overrides == Map::<OverrideKey, Side>::empty(),
    {
        Resolutions::none()
    }
}

/// An override wins over the default, and the last one for a conflict wins.
pub proof fn law_overrides_win(
    r: ResolutionsModel,
    kind: ConflictKind,
    path: Text,
    property: Option<Text>,
    side: Side,
)
    ensures
        resolution(
            (ResolutionsModel { overrides: r.overrides.insert((kind, path, property), side), ..r }),
            kind,
            path,
            property,
        ) == Some(side),
{
}

/// An override for one conflict leaves the decision on every other as it was.
pub proof fn law_override_is_local(
    r: ResolutionsModel,
    kind: ConflictKind,
    path: Text,
    property: Option<Text>,
    side: Side,
    other: OverrideKey,
)
    requires
        other != (kind, path, property),
    ensures
        resolution(
            (ResolutionsModel { overrides: r.overrides.insert((kind, path, property), side), ..r }),
            other.0,
            other.1,
            other.2,
        ) == resolution(r, other.0, other.1, other.2),
{
}

} // verus!
