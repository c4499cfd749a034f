//! Merging and showing whole files.

use rbx_dom_weak::WeakDom;
use rbx_reflection::ReflectionDatabase;
use vstd::prelude::*;

use crate::conflict;
use crate::conflict::{Conflict, ConflictModel, MergeReport};
use crate::context::{Ctx, MergeCtx};
use crate::database;
use crate::database::is_consistent;
use crate::diagnostics;
use crate::diagnostics::{
    metadata_diagnostic, output_format_diagnostic, Diagnostic, DiagnosticModel,
};
use crate::dom;
use crate::dom::{get_instance, load_database, root_referent, Forest};
use crate::error;
use crate::error::{Error, ErrorModel};
use crate::format::{decode_file, detect_format, encode_file, DecodedFile, FileFormat};
use crate::graph::GraphModel;
use crate::identity;
use crate::identity::{build_identities, IdentityModel};
use crate::matching::Classes;
use crate::merging;
use crate::merging::{merge_graph, MergeOutcome, OutcomeModel};
use crate::render;
use crate::render::{Renderer, Style, TextconvOptions};
use crate::resolve::{Resolutions, ResolutionsModel};
use crate::semantic;
use crate::semantic::{DomModel, SemanticDom};
use crate::text::Text;
use crate::tree;

verus! {

/// What to do with conflicts.
#[derive(Debug, Clone, Copy, PartialEq, Eq, Hash, Default)]
pub enum ConflictPolicy {
    /// Report them, and write no merged file. There is no other policy yet.
    #[default]
    Report,
}

/// What to do with properties that the reflection database does not know.
#[derive(Debug, Clone, Copy, PartialEq, Eq, Hash, Default)]
pub enum UnknownPropertyPolicy {
    /// Keep them where the format can hold them, and remark on them. There is no
    /// other policy yet.
    #[default]
    PreserveWhenSupported,
}

/// Settings of [`merge`].
#[derive(Debug, Clone, PartialEq, Eq)]
pub struct MergeOptions {
    pub base_format: Option<FileFormat>,
    pub ours_format: Option<FileFormat>,
    pub theirs_format: Option<FileFormat>,
    pub output_format: Option<FileFormat>,
    pub conflict_policy: ConflictPolicy,
    pub unknown_property_policy: UnknownPropertyPolicy,
}

impl Default for MergeOptions {
    fn default() -> (res: Self)
        ensures
            res.base_format is None,
            res.ours_format is None,
            res.theirs_format is None,
            res.output_format is None,
            res.conflict_policy is Report,
            res.unknown_property_policy is PreserveWhenSupported,
    {
        MergeOptions {
            base_format: None,
            ours_format: None,
            theirs_format: None,
            output_format: None,
            conflict_policy: ConflictPolicy::Report,
            unknown_property_policy: UnknownPropertyPolicy::PreserveWhenSupported,
        }
    }
}

/// The files that [`merge`] takes, with one path for all three.
#[derive(Debug, Clone, Copy)]
pub struct MergeInput<'a> {
    pub base: &'a [u8],
    pub ours: &'a [u8],
    pub theirs: &'a [u8],
    pub path_hint: Option<&'a str>,
}

/// One side of a merge: its bytes, a path that the format can be told by and that
/// remarks name, and a format that goes before both.
#[derive(Debug, Clone, Copy)]
pub struct FileInput<'a> {
    pub bytes: &'a [u8],
    pub path_hint: Option<&'a str>,
    pub format: Option<FileFormat>,
}

/// The mathematical counterpart of [`FileInput`].
#[verifier::ext_equal]
pub ghost struct InputModel {
    pub bytes: Seq<u8>,
    pub path: Option<Text>,
    pub format: Option<FileFormat>,
}

impl<'a> View for FileInput<'a> {
    type V = InputModel;

    open spec fn view(&self) -> InputModel {
        InputModel {
            bytes: self.bytes@,
            path: crate::format::path_view(self.path_hint),
            format: self.format,
        }
    }
}

impl<'a> FileInput<'a> {
    /// A side whose format is told by its content.
    pub fn new(bytes: &'a [u8]) -> (res: Self)
        ensures
            res@ == (InputModel { bytes: bytes@, path: None, format: None }),
    {
        FileInput { bytes, path_hint: None, format: None }
    }

    /// The side with a path.
    pub fn with_path_hint(self, path_hint: &'a str) -> (res: Self)
        ensures
            res@ == (InputModel { path: Some(path_hint@), ..self@ }),
    {
        FileInput { bytes: self.bytes, path_hint: Some(path_hint), format: self.format }
    }

    /// The side with a format.
    pub fn with_format(self, format: FileFormat) -> (res: Self)
        ensures
            res@ == (InputModel { format: Some(format), ..self@ }),
    {
        FileInput { bytes: self.bytes, path_hint: self.path_hint, format: Some(format) }
    }
}

/// Settings of [`merge_files`].
#[derive(Debug, Clone)]
pub struct MergeSettings {
    pub output_format: Option<FileFormat>,
    pub conflict_policy: ConflictPolicy,
    pub unknown_property_policy: UnknownPropertyPolicy,
    /// How conflicts are decided.
    pub resolutions: Resolutions,
}

impl Default for MergeSettings {
    fn default() -> (res: Self)
        ensures
            res.output_format is None,
            res.conflict_policy is Report,
            res.unknown_property_policy is PreserveWhenSupported,
            res.resolutions@.default is None,
            res.resolutions@.overrides.dom() == Set::<crate::resolve::OverrideKey>::empty(),
    {
        MergeSettings {
            output_format: None,
            conflict_policy: ConflictPolicy::Report,
            unknown_property_policy: UnknownPropertyPolicy::PreserveWhenSupported,
            resolutions: Resolutions::none(),
        }
    }
}

// ---------------------------------------------------------------------------
// What a merge gives
// ---------------------------------------------------------------------------

/// The mathematical counterpart of [`MergeReport`].
#[verifier::ext_equal]
pub ghost struct ReportModel {
    pub merged: Option<Seq<u8>>,
    pub conflicts: Seq<ConflictModel>,
    pub diagnostics: Seq<DiagnosticModel>,
}

impl View for MergeReport {
    type V = ReportModel;

    open spec fn view(&self) -> ReportModel {
        ReportModel {
            merged: match self.merged {
                Some(bytes) => Some(bytes@),
                None => None,
            },
            conflicts: conflict::conflicts_view(self.conflicts@),
            diagnostics: diagnostics::diagnostics_view(self.diagnostics@),
        }
    }
}

/// What comes of a call, as plain values.
pub open spec fn report_view(res: Result<MergeReport, Error>) -> Result<ReportModel, ErrorModel> {
    match res {
        Ok(report) => Ok(report@),
        Err(e) => Err(e@),
    }
}

/// The format that the merged file is written in: the one asked for, else that
/// given for ours, else that of the path of ours, else that ours was read in.
pub open spec fn output_format_of(
    path: Option<Text>,
    output: Option<FileFormat>,
    ours: Option<FileFormat>,
    detected: FileFormat,
) -> FileFormat {
    match (output, ours) {
        (Some(f), _) => f,
        (None, Some(f)) => f,
        (None, None) => match path {
            Some(p) => match crate::format::extension_format(crate::format::extension(p)) {
                Some(f) => f,
                None => detected,
            },
            None => detected,
        },
    }
}

/// Chooses the format that the merged file is written in.
pub fn choose_output_format(
    path_hint: Option<&str>,
    output_format: Option<FileFormat>,
    explicit_ours_format: Option<FileFormat>,
    detected_ours_format: FileFormat,
) -> (res: FileFormat)
    ensures
        res == output_format_of(
            crate::format::path_view(path_hint),
            output_format,
            explicit_ours_format,
            detected_ours_format,
        ),
{
    if let Some(format) = output_format {
        return format;
    }
    if let Some(format) = explicit_ours_format {
        return format;
    }
    if let Some(path) = path_hint {
        if let Some(format) = FileFormat::from_extension(path) {
            return format;
        }
    }
    detected_ours_format
}

/// What a merge is asked for, besides its files.
pub ghost struct Request {
    pub resolutions: ResolutionsModel,
    pub format: FileFormat,
    pub path: Option<Text>,
}

/// The rows of three files.
pub open spec fn is_identity(
    base: DomModel,
    ours: DomModel,
    theirs: DomModel,
    classes: Classes,
    rows: IdentityModel,
) -> bool {
    &&& identity::identity_wf(rows, base, ours, theirs)
    &&& rows.entries == identity::identity_rows(
        identity::additions_of(base, ours, theirs, classes),
    )
}

/// The remarks that a merge begins with.
pub open spec fn first_remarks(
    base: DomModel,
    ours: DomModel,
    theirs: DomModel,
    classes: Classes,
) -> Seq<DiagnosticModel> {
    seq![diagnostics::metadata_model()] + identity::identity_diagnostics(
        base,
        ours,
        theirs,
        classes,
    )
}

/// What comes of a merge without conflicts, whose tree is `tree`: the bytes that it
/// is written as, or the error.
pub open spec fn written(
    tree: Forest,
    request: Request,
    db: ReflectionDatabase<'static>,
    remarks: Seq<DiagnosticModel>,
    outcome: Result<ReportModel, ErrorModel>,
) -> bool {
    match outcome {
        Ok(report) => {
            &&& report.merged is Some
            &&& crate::format::encoded(
                tree,
                tree.instances[tree.root].children,
                request.format,
                db,
                Ok(report.merged->0),
            )
            &&& report.conflicts == Seq::<ConflictModel>::empty()
            &&& report.diagnostics == remarks.push(
                diagnostics::output_format_model(
                    crate::format::format_label(request.format),
                    request.path,
                ),
            )
        },
        Err(e) => {
            &&& e is Encode
            &&& e->Encode_0 == request.format
            &&& crate::format::encoded(
                tree,
                tree.instances[tree.root].children,
                request.format,
                db,
                Err(e),
            )
        },
    }
}

/// What comes of the rows of a merge, whose merged graph is `g`.
pub open spec fn rows_merged(
    ctx: Ctx,
    g: GraphModel,
    request: Request,
    db: ReflectionDatabase<'static>,
    outcome: Result<ReportModel, ErrorModel>,
) -> bool {
    let classes = dom::classes(db);
    let remarks = first_remarks(ctx.base, ctx.ours, ctx.theirs, classes);
    &&& merging::is_merged_graph(ctx, g)
    &&& if merging::merge_conflicts(ctx, g).len() > 0 {
        outcome == Ok::<ReportModel, ErrorModel>(
            ReportModel {
                merged: None,
                conflicts: merging::merge_conflicts(ctx, g),
                diagnostics: remarks,
            },
        )
    } else {
        exists|tree: Forest| #[trigger]
            merging::outcome_of(ctx, g, OutcomeModel::Merged(tree)) && written(
                tree,
                request,
                db,
                remarks + merging::remarks_on(ctx, classes, merging::finished(ctx, g)),
                outcome,
            )
    }
}

/// What comes of three files as trees of instances.
pub open spec fn doms_merged(
    base: DomModel,
    ours: DomModel,
    theirs: DomModel,
    request: Request,
    db: ReflectionDatabase<'static>,
    outcome: Result<ReportModel, ErrorModel>,
) -> bool {
    exists|rows: IdentityModel, g: GraphModel|
        #![trigger is_identity(base, ours, theirs, dom::classes(db), rows), merging::is_merged_graph(Ctx { base, ours, theirs, rows, resolutions: request.resolutions }, g)]
        is_identity(base, ours, theirs, dom::classes(db), rows) && rows_merged(
            Ctx { base, ours, theirs, rows, resolutions: request.resolutions },
            g,
            request,
            db,
            outcome,
        )
}

/// Whether the links of a file are broken, so that it cannot be merged.
pub open spec fn broken(forest: Forest, outcome: Result<ReportModel, ErrorModel>) -> bool {
    outcome is Err && semantic::link_failure(forest, outcome->Err_0)
}

/// Whether the instances of a file can be numbered.
pub open spec fn represented(forest: Forest) -> bool {
    exists|d: DomModel| #[trigger] semantic::represents(d, forest)
}

/// What comes of three files that were read: the error of the first whose links are
/// broken, else what comes of their instances.
pub open spec fn forests_merged(
    base: Forest,
    ours: Forest,
    theirs: Forest,
    request: Request,
    db: ReflectionDatabase<'static>,
    outcome: Result<ReportModel, ErrorModel>,
) -> bool {
    ||| broken(base, outcome)
    ||| represented(base) && broken(ours, outcome)
    ||| represented(base) && represented(ours) && broken(theirs, outcome)
    ||| exists|b: DomModel, o: DomModel, t: DomModel|
        #![trigger semantic::represents(b, base), semantic::represents(o, ours), semantic::represents(t, theirs)]
        semantic::represents(b, base) && semantic::represents(o, ours) && semantic::represents(
            t,
            theirs,
        ) && doms_merged(b, o, t, request, db, outcome)
}

/// What comes of reading one side: its format and its tree, or the error.
pub open spec fn side_read(
    input: InputModel,
    db: ReflectionDatabase<'static>,
    outcome: Result<(FileFormat, Forest), ErrorModel>,
) -> bool {
    match crate::format::detected_format(input.bytes, input.path, input.format) {
        None => outcome == Err::<(FileFormat, Forest), ErrorModel>(
            error::unknown_format(input.path),
        ),
        Some(format) => match outcome {
            Ok((f, tree)) => f == format && crate::format::reads(
                format,
                input.bytes,
                db,
                Ok(tree),
            ),
            Err(e) => e is Decode && e->Decode_0 == format && crate::format::reads(
                format,
                input.bytes,
                db,
                Err(e->Decode_1),
            ),
        },
    }
}

/// What comes of merging three files: the error of the first that cannot be read,
/// else what comes of their trees.
pub open spec fn files_merged(
    base: InputModel,
    ours: InputModel,
    theirs: InputModel,
    output: Option<FileFormat>,
    resolutions: ResolutionsModel,
    db: ReflectionDatabase<'static>,
    outcome: Result<ReportModel, ErrorModel>,
) -> bool {
    exists|b: Result<(FileFormat, Forest), ErrorModel>| #[trigger]
        side_read(base, db, b) && match b {
            Err(e) => outcome == Err::<ReportModel, ErrorModel>(e),
            Ok((_, base_tree)) => exists|o: Result<(FileFormat, Forest), ErrorModel>| #[trigger]
                side_read(ours, db, o) && match o {
                    Err(e) => outcome == Err::<ReportModel, ErrorModel>(e),
                    Ok((format, ours_tree)) => exists|
                        t: Result<(FileFormat, Forest), ErrorModel>,
                    | #[trigger]
                        side_read(theirs, db, t) && match t {
                            Err(e) => outcome == Err::<ReportModel, ErrorModel>(e),
                            Ok((_, theirs_tree)) => forests_merged(
                                base_tree,
                                ours_tree,
                                theirs_tree,
                                Request {
                                    resolutions,
                                    format: output_format_of(
                                        ours.path,
                                        output,
                                        ours.format,
                                        format,
                                    ),
                                    path: ours.path,
                                },
                                db,
                                outcome,
                            ),
                        },
                },
        }
}

/// The row of an instance of a built tree, with what the tree holds of it.
proof fn lemma_built_row(maps: tree::RefMaps, g: GraphModel, forest: Forest, x: u128) -> (r: usize)
    requires
        tree::ready(g),
        tree::built(maps, g, forest),
        forest.instances.contains_key(x),
    ensures
        tree::reached(g, r),
        r < g.len(),
        g[r as int] is Some,
        g[r as int]->0.referent == x,
        forest.instances[x].children == tree::referents(g, g[r as int]->0.children),
{
    let r = choose|r: usize| #[trigger] tree::reached(g, r) && g[r as int]->0.referent == x;
    assert(tree::row_built(maps, g, r, forest));
    let steps = choose|steps: nat| #[trigger] tree::reaches_root(g, r, steps);
    r
}

/// The child of an instance of a built tree is that of a row under its row.
proof fn lemma_built_child(
    maps: tree::RefMaps,
    g: GraphModel,
    forest: Forest,
    x: u128,
    r: usize,
    i: int,
) -> (c: usize)
    requires
        tree::ready(g),
        tree::built(maps, g, forest),
        forest.instances.contains_key(x),
        tree::reached(g, r),
        r < g.len(),
        g[r as int] is Some,
        g[r as int]->0.referent == x,
        forest.instances[x].children == tree::referents(g, g[r as int]->0.children),
        0 <= i < forest.instances[x].children.len(),
    ensures
        c == g[r as int]->0.children[i],
        c < g.len(),
        g[c as int] is Some,
        g[c as int]->0.parent == Some(r),
        forest.instances[x].children[i] == g[c as int]->0.referent,
        forest.instances.contains_key(forest.instances[x].children[i]),
{
    let children = g[r as int]->0.children;
    let c = children[i];
    assert(forest.instances[x].children[i] == g[c as int]->0.referent);
    let steps = choose|steps: nat| #[trigger] tree::reaches_root(g, r, steps);
    assert(children.contains(c));
    assert(tree::children_complete(g, r as int));
    assert(crate::child_order::is_under(g, r, c));
    assert(tree::reaches_root(g, c, steps + 1));
    assert(tree::reached(g, c));
    assert(tree::row_built(maps, g, c, forest));
    c
}

/// The links of a built tree are those of a tree.
proof fn lemma_built_links(maps: tree::RefMaps, g: GraphModel, forest: Forest)
    requires
        tree::ready(g),
        tree::built(maps, g, forest),
    ensures
        semantic::tree_links(forest),
{
    assert(tree::reaches_root(g, 0, 0));
    assert(tree::reached(g, 0));
    assert(tree::row_built(maps, g, 0, forest));
    assert forall|x: u128, i: int|
        forest.instances.contains_key(x) && 0 <= i < forest.instances[x].children.len() implies ({
        let c = #[trigger] forest.instances[x].children[i];
        forest.instances.contains_key(c) && c != forest.root
    }) by {
        let r = lemma_built_row(maps, g, forest, x);
        let c = lemma_built_child(maps, g, forest, x, r, i);
        if g[c as int]->0.referent == forest.root && c != 0 {
            assert(g[0] is Some && g[c as int] is Some);
        }
    }
    assert forall|x: u128, i: int, y: u128, k: int|
        forest.instances.contains_key(x) && 0 <= i < forest.instances[x].children.len()
            && forest.instances.contains_key(y) && 0 <= k < forest.instances[y].children.len()
            && #[trigger] forest.instances[x].children[i]
            == #[trigger] forest.instances[y].children[k] implies x == y && i == k by {
        let r = lemma_built_row(maps, g, forest, x);
        let s = lemma_built_row(maps, g, forest, y);
        let c = lemma_built_child(maps, g, forest, x, r, i);
        let d = lemma_built_child(maps, g, forest, y, s, k);
        if c != d {
            if c < d {
                assert(g[c as int] is Some && g[d as int] is Some);
            } else {
                assert(g[d as int] is Some && g[c as int] is Some);
            }
        }
        assert(g[r as int] is Some);
    }
}

/// A tree whose links are those of a tree, written from its root's children on, fails
/// in the writer alone, or for a content that XML has no form for.
proof fn lemma_written_error(
    forest: Forest,
    format: FileFormat,
    db: ReflectionDatabase<'static>,
    e: ErrorModel,
)
    requires
        semantic::tree_links(forest),
        crate::format::encoded(
            forest,
            forest.instances[forest.root].children,
            format,
            db,
            Err(e),
        ),
    ensures
        e is Encode,
        e->Encode_0 == format,
{
    let roots = forest.instances[forest.root].children;
    let d = choose|d: DomModel| #[trigger]
        semantic::represents(d, forest) && crate::format::dom_encoded(
            d,
            forest,
            roots,
            format,
            db,
            Err(e),
        );
    assert(semantic::represents_at(d, 0, forest));
    assert forall|i: int| 0 <= i < roots.len() implies semantic::node_of_ref(
        d,
        #[trigger] roots[i],
    ) is Some by {
        let c = d[0].children[i];
        reveal(semantic::links_wf);
        semantic::lemma_node_of_ref(d, c as int);
    }
}

fn owned(path: Option<&str>) -> (res: Option<String>)
    ensures
        diagnostics::option_text(res) == crate::format::path_view(path),
{
    match path {
        Some(p) => Some(p.to_owned()),
        None => None,
    }
}

/// Writes the tree of a merge without conflicts.
fn write_merged(
    tree: &WeakDom,
    format: FileFormat,
    path: Option<&str>,
    db: &'static ReflectionDatabase<'static>,
    remarks: Vec<Diagnostic>,
    Ghost(resolutions): Ghost<ResolutionsModel>,
) -> (res: Result<MergeReport, Error>)
    requires
        semantic::tree_links(dom::forest(*tree)),
        database::fits_together(dom::classes(*db)),
    ensures
        written(
            dom::forest(*tree),
            Request { resolutions, format, path: crate::format::path_view(path) },
            *db,
            diagnostics::diagnostics_view(remarks@),
            report_view(res),
        ),
{
    let root = root_referent(tree);
    let roots: Vec<u128> = match get_instance(tree, root) {
        Some(instance) => instance.children,
        None => Vec::new(),
    };
    match encode_file(tree, &roots, format, db) {
        Ok(bytes) => {
            let ghost before = diagnostics::diagnostics_view(remarks@);
            let mut list = remarks;
            let remark = output_format_diagnostic(format.label(), owned(path));
            let ghost added = remark@;
            list.push(remark);
            assert(diagnostics::diagnostics_view(list@) =~= before.push(added));
            let none: Vec<Conflict> = Vec::new();
            assert(conflict::conflicts_view(none@) =~= Seq::<ConflictModel>::empty());
            Ok(MergeReport { merged: Some(bytes), conflicts: none, diagnostics: list })
        },
        Err(e) => {
            proof {
                lemma_written_error(dom::forest(*tree), format, *db, e@);
            }
            Err(e)
        },
    }
}

/// Merges three files whose instances were numbered.
fn merge_semantic(
    base: &SemanticDom,
    ours: &SemanticDom,
    theirs: &SemanticDom,
    resolutions: &Resolutions,
    format: FileFormat,
    path: Option<&str>,
    db: &'static ReflectionDatabase<'static>,
) -> (res: Result<MergeReport, Error>)
    requires
        base.wf(),
        ours.wf(),
        theirs.wf(),
        database::fits_together(dom::classes(*db)),
    ensures
        doms_merged(
            base@,
            ours@,
            theirs@,
            Request { resolutions: resolutions@, format, path: crate::format::path_view(path) },
            *db,
            report_view(res),
        ),
{
    let ghost classes = dom::classes(*db);
    let ghost request = Request {
        resolutions: resolutions@,
        format,
        path: crate::format::path_view(path),
    };
    let mut remarks: Vec<Diagnostic> = vec![metadata_diagnostic()];
    let (identities, mut notes): (crate::identity::IdentitySet, Vec<Diagnostic>) =
        build_identities(base, ours, theirs, db);
    let ghost first = diagnostics::diagnostics_view(remarks@);
    let ghost more = diagnostics::diagnostics_view(notes@);
    remarks.append(&mut notes);
    proof {
        assert(first =~= seq![diagnostics::metadata_model()]);
        assert(diagnostics::diagnostics_view(remarks@) =~= first + more);
        assert(first + more == first_remarks(base@, ours@, theirs@, classes));
        assert(is_identity(base@, ours@, theirs@, classes, identities@));
    }
    let ghost before = diagnostics::diagnostics_view(remarks@);
    let ctx = MergeCtx { base, ours, theirs, identities: &identities, resolutions };
    let outcome = merge_graph(&ctx, db, &mut remarks);
    let ghost g = choose|g: GraphModel| #[trigger]
        merging::is_merged_graph(ctx@, g) && merging::outcome_of(ctx@, g, outcome@)
            && diagnostics::diagnostics_view(remarks@) == merging::remarks_of(
            ctx@,
            classes,
            g,
            before,
        );
    assert(merging::is_merged_graph(ctx@, g));
    match outcome {
        MergeOutcome::Conflicts(conflicts) => {
            let report = MergeReport { merged: None, conflicts, diagnostics: remarks };
            assert(rows_merged(ctx@, g, request, *db, Ok(report@)));
            Ok(report)
        },
        MergeOutcome::Merged(tree) => {
            proof {
                merging::law_clean_graph_is_ready(ctx@, g);
                lemma_built_links(
                    tree::final_refs(ctx@, merging::finished(ctx@, g), g.len() as int),
                    merging::finished(ctx@, g),
                    dom::forest(tree),
                );
                assert(merging::outcome_of(ctx@, g, OutcomeModel::Merged(dom::forest(tree))));
            }
            let res = write_merged(&tree, format, path, db, remarks, Ghost(resolutions@));
            assert(rows_merged(ctx@, g, request, *db, report_view(res)));
            res
        },
    }
}

/// Merges three files that were read.
pub fn merge_decoded(
    base: &WeakDom,
    ours: &WeakDom,
    theirs: &WeakDom,
    resolutions: &Resolutions,
    format: FileFormat,
    path: Option<&str>,
    db: &'static ReflectionDatabase<'static>,
) -> (res: Result<MergeReport, Error>)
    requires
        database::fits_together(dom::classes(*db)),
    ensures
        forests_merged(
            dom::forest(*base),
            dom::forest(*ours),
            dom::forest(*theirs),
            Request { resolutions: resolutions@, format, path: crate::format::path_view(path) },
            *db,
            report_view(res),
        ),
{
    let base_dom = match SemanticDom::from_weak_dom(base) {
        Ok(d) => d,
        Err(e) => {
            return Err(e);
        },
    };
    let ours_dom = match SemanticDom::from_weak_dom(ours) {
        Ok(d) => d,
        Err(e) => {
            return Err(e);
        },
    };
    let theirs_dom = match SemanticDom::from_weak_dom(theirs) {
        Ok(d) => d,
        Err(e) => {
            return Err(e);
        },
    };
    merge_semantic(&base_dom, &ours_dom, &theirs_dom, resolutions, format, path, db)
}

fn read_side(input: &FileInput, db: &'static ReflectionDatabase<'static>) -> (res: Result<
    DecodedFile,
    Error,
>)
    requires
        database::fits_together(dom::classes(*db)),
    ensures
        side_read(input@, *db, decoded_view(res)),
{
    decode_file(input.bytes, input.path_hint, input.format, db)
}

/// What was read, as plain values.
pub open spec fn decoded_view(res: Result<DecodedFile, Error>) -> Result<
    (FileFormat, Forest),
    ErrorModel,
> {
    match res {
        Ok(file) => Ok((file.format, dom::forest(file.dom))),
        Err(e) => Err(e@),
    }
}

/// Merges three files with a reflection database.
pub fn merge_with_database(
    base: FileInput,
    ours: FileInput,
    theirs: FileInput,
    settings: &MergeSettings,
    db: &'static ReflectionDatabase<'static>,
) -> (res: Result<MergeReport, Error>)
    requires
        database::fits_together(dom::classes(*db)),
    ensures
        files_merged(
            base@,
            ours@,
            theirs@,
            settings.output_format,
            settings.resolutions@,
            *db,
            report_view(res),
        ),
{
    let base_read = read_side(&base, db);
    let ghost b = decoded_view(base_read);
    assert(side_read(base@, *db, b));
    let base_file = match base_read {
        Ok(file) => file,
        Err(e) => {
            return Err(e);
        },
    };
    let ours_read = read_side(&ours, db);
    let ghost o = decoded_view(ours_read);
    assert(side_read(ours@, *db, o));
    let ours_file = match ours_read {
        Ok(file) => file,
        Err(e) => {
            return Err(e);
        },
    };
    let theirs_read = read_side(&theirs, db);
    let ghost t = decoded_view(theirs_read);
    assert(side_read(theirs@, *db, t));
    let theirs_file = match theirs_read {
        Ok(file) => file,
        Err(e) => {
            return Err(e);
        },
    };
    let format = choose_output_format(
        ours.path_hint,
        settings.output_format,
        ours.format,
        ours_file.format,
    );
    merge_decoded(
        &base_file.dom,
        &ours_file.dom,
        &theirs_file.dom,
        &settings.resolutions,
        format,
        ours.path_hint,
        db,
    )
}

/// The error for want of a reflection database.
pub open spec fn no_database() -> ErrorModel {
    ErrorModel::Internal("the reflection database could not be loaded"@)
}

/// The error for a reflection database whose classes do not fit together.
pub open spec fn unfit_database() -> ErrorModel {
    ErrorModel::Internal("the reflection database is inconsistent"@)
}

/// The errors for want of a reflection database that can be used.
pub open spec fn database_error(e: ErrorModel) -> bool {
    e == no_database() || e == unfit_database()
}

/// The reflection database, where there is one whose classes fit together.
pub fn usable_database() -> (res: Result<&'static ReflectionDatabase<'static>, Error>)
    ensures
        match res {
            Ok(db) => database::fits_together(dom::classes(*db)),
            Err(e) => database_error(e@),
        },
{
    match load_database() {
        Some(db) => if is_consistent(db) {
            Ok(db)
        } else {
            Err(Error::Internal("the reflection database is inconsistent".to_owned()))
        },
        None => Err(Error::Internal("the reflection database could not be loaded".to_owned())),
    }
}

/// The answer to a merge of three files. A base whose format cannot be told is
/// refused first; after that, all depends on the reflection database that there is.
pub open spec fn merge_answered(
    base: InputModel,
    ours: InputModel,
    theirs: InputModel,
    output: Option<FileFormat>,
    resolutions: ResolutionsModel,
    outcome: Result<ReportModel, ErrorModel>,
) -> bool {
    &&& crate::format::detected_format(base.bytes, base.path, base.format) is None ==> outcome == Err::<
        ReportModel,
        ErrorModel,
    >(error::unknown_format(base.path))
    &&& (outcome is Err && database_error(outcome->Err_0)) || exists|
        db: ReflectionDatabase<'static>,
    | #[trigger]
        files_merged(base, ours, theirs, output, resolutions, db, outcome)
}

/// Merges three files.
pub fn merge_files(base: FileInput, ours: FileInput, theirs: FileInput, settings: MergeSettings) -> (res:
    Result<MergeReport, Error>)
    ensures
        merge_answered(
            base@,
            ours@,
            theirs@,
            settings.output_format,
            settings.resolutions@,
            report_view(res),
        ),
{
    if let Err(e) = detect_format(base.bytes, base.path_hint, base.format) {
        proof {
            let db: ReflectionDatabase<'static> = arbitrary();
            let b: Result<(FileFormat, Forest), ErrorModel> = Err(e@);
            assert(side_read(base@, db, b));
            assert(files_merged(
                base@,
                ours@,
                theirs@,
                settings.output_format,
                settings.resolutions@,
                db,
                Err(e@),
            ));
        }
        return Err(e);
    }
    match usable_database() {
        Ok(db) => merge_with_database(base, ours, theirs, &settings, db),
        Err(e) => Err(e),
    }
}

/// The side of a merge that takes one path for all three.
pub open spec fn shared_side(bytes: Seq<u8>, path: Option<Text>, format: Option<FileFormat>) -> InputModel {
    InputModel { bytes, path, format }
}

/// Merges three files without decisions on conflicts: the answer is that of
/// [`merge_files`] for these files, all with one path, where nothing is decided.
pub fn merge(input: MergeInput, options: MergeOptions) -> (res: Result<MergeReport, Error>)
    ensures
        ({
            let path = crate::format::path_view(input.path_hint);
            merge_answered(
                shared_side(input.base@, path, options.base_format),
                shared_side(input.ours@, path, options.ours_format),
                shared_side(input.theirs@, path, options.theirs_format),
                options.output_format,
                ResolutionsModel { default: None, overrides: Map::empty() },
                report_view(res),
            )
        }),
{
    let base = FileInput {
        bytes: input.base,
        path_hint: input.path_hint,
        format: options.base_format,
    };
    let ours = FileInput {
        bytes: input.ours,
        path_hint: input.path_hint,
        format: options.ours_format,
    };
    let theirs = FileInput {
        bytes: input.theirs,
        path_hint: input.path_hint,
        format: options.theirs_format,
    };
    let settings = MergeSettings {
        output_format: options.output_format,
        conflict_policy: options.conflict_policy,
        unknown_property_policy: options.unknown_property_policy,
        resolutions: Resolutions::none(),
    };
    proof {
        let none = ResolutionsModel { default: None, overrides: Map::empty() };
        assert(settings.resolutions@.overrides =~= none.overrides);
    }
    merge_files(base, ours, theirs, settings)
}

// ---------------------------------------------------------------------------
// What the text of a file is
// ---------------------------------------------------------------------------

/// What comes of showing a file that was read.
pub open spec fn forest_shown(
    forest: Forest,
    format: FileFormat,
    style: Style,
    outcome: Result<Text, ErrorModel>,
) -> bool {
    match outcome {
        Ok(text) => exists|d: DomModel| #[trigger]
            semantic::represents(d, forest) && text == render::file_text(d, format, style),
        Err(e) => semantic::link_failure(forest, e),
    }
}

/// What comes of showing a file: the error where it cannot be read, else the text
/// of its tree.
pub open spec fn file_shown(
    input: InputModel,
    all_properties: bool,
    db: ReflectionDatabase<'static>,
    outcome: Result<Text, ErrorModel>,
) -> bool {
    exists|r: Result<(FileFormat, Forest), ErrorModel>| #[trigger]
        side_read(input, db, r) && match r {
            Err(e) => outcome == Err::<Text, ErrorModel>(e),
            Ok((format, forest)) => forest_shown(
                forest,
                format,
                Style { classes: dom::classes(db), all_properties },
                outcome,
            ),
        }
}

pub open spec fn text_view(res: Result<String, Error>) -> Result<Text, ErrorModel> {
    match res {
        Ok(text) => Ok(text@),
        Err(e) => Err(e@),
    }
}

/// Shows a file that was read.
pub fn show_decoded(
    dom: &WeakDom,
    format: FileFormat,
    options: TextconvOptions,
    db: &ReflectionDatabase<'static>,
) -> (res: Result<String, Error>)
    ensures
        forest_shown(
            dom::forest(*dom),
            format,
            Style { classes: dom::classes(*db), all_properties: options.all_properties },
            text_view(res),
        ),
{
    match SemanticDom::from_weak_dom(dom) {
        Ok(semantic) => {
            let renderer = Renderer { dom: &semantic, db, options };
            let text = renderer.render_textconv(format);
            assert(semantic::represents(semantic@, dom::forest(*dom)));
            Ok(text)
        },
        Err(e) => Err(e),
    }
}

/// Shows a file as text.
pub fn textconv(bytes: &[u8], path_hint: Option<&str>, options: TextconvOptions) -> (res: Result<
    String,
    Error,
>)
    ensures
        crate::format::detected_format(bytes@, crate::format::path_view(path_hint), None) is None
            ==> text_view(res) == Err::<Text, ErrorModel>(
            error::unknown_format(crate::format::path_view(path_hint)),
        ),
        (res is Err && database_error(res->Err_0@)) || exists|
            db: ReflectionDatabase<'static>,
        | #[trigger]
            file_shown(
                shared_side(bytes@, crate::format::path_view(path_hint), None),
                options.all_properties,
                db,
                text_view(res),
            ),
{
    let ghost input = shared_side(bytes@, crate::format::path_view(path_hint), None);
    if let Err(e) = detect_format(bytes, path_hint, None) {
        proof {
            let db: ReflectionDatabase<'static> = arbitrary();
            let r: Result<(FileFormat, Forest), ErrorModel> = Err(e@);
            assert(side_read(input, db, r));
            assert(file_shown(input, options.all_properties, db, Err(e@)));
        }
        return Err(e);
    }
    let db = match usable_database() {
        Ok(db) => db,
        Err(e) => {
            return Err(e);
        },
    };
    let read = decode_file(bytes, path_hint, None, db);
    let ghost r = decoded_view(read);
    assert(side_read(input, *db, r));
    let res = match read {
        Ok(file) => show_decoded(&file.dom, file.format, options, db),
        Err(e) => Err(e),
    };
    assert(file_shown(input, options.all_properties, *db, text_view(res)));
    res
}

/// What comes of a call that adds to a list of bytes.
pub open spec fn added_view(res: Result<(), Error>, text: Text) -> Result<Text, ErrorModel> {
    match res {
        Ok(_) => Ok(text),
        Err(e) => Err(e@),
    }
}

/// Shows a file as text, one instance at a time, and adds the bytes of the text.
pub fn textconv_to(
    bytes: &[u8],
    path_hint: Option<&str>,
    out: &mut Vec<u8>,
    options: TextconvOptions,
) -> (res: Result<(), Error>)
    ensures
        res is Err ==> final(out)@ == old(out)@,
        crate::format::detected_format(bytes@, crate::format::path_view(path_hint), None) is None
            ==> res is Err && res->Err_0@ == error::unknown_format(
            crate::format::path_view(path_hint),
        ),
        (res is Err && database_error(res->Err_0@)) || exists|
            db: ReflectionDatabase<'static>,
            text: Text,
        |
            #![trigger file_shown(shared_side(bytes@, crate::format::path_view(path_hint), None), options.all_properties, db, added_view(res, text))]
            file_shown(
                shared_side(bytes@, crate::format::path_view(path_hint), None),
                options.all_properties,
                db,
                added_view(res, text),
            ) && (res is Ok ==> final(out)@ == old(out)@ + vstd::utf8::encode_utf8(text)),
{
    let ghost input = shared_side(bytes@, crate::format::path_view(path_hint), None);
    let ghost before = out@;
    if let Err(e) = detect_format(bytes, path_hint, None) {
        proof {
            let db: ReflectionDatabase<'static> = arbitrary();
            let r: Result<(FileFormat, Forest), ErrorModel> = Err(e@);
            assert(side_read(input, db, r));
            assert(file_shown(
                input,
                options.all_properties,
                db,
                added_view(Err(e), Seq::empty()),
            ));
        }
        return Err(e);
    }
    let db = match usable_database() {
        Ok(db) => db,
        Err(e) => {
            return Err(e);
        },
    };
    let read = decode_file(bytes, path_hint, None, db);
    let ghost r = decoded_view(read);
    assert(side_read(input, *db, r));
    let file = match read {
        Ok(file) => file,
        Err(e) => {
            assert(file_shown(
                input,
                options.all_properties,
                *db,
                added_view(Err(e), Seq::empty()),
            ));
            return Err(e);
        },
    };
    match SemanticDom::from_weak_dom(&file.dom) {
        Ok(semantic) => {
            let renderer = Renderer { dom: &semantic, db, options };
            renderer.stream_textconv(file.format, out);
            proof {
                let text = render::file_text(semantic@, file.format, renderer.style());
                assert(semantic::represents(semantic@, dom::forest(file.dom)));
                assert(file_shown(
                    input,
                    options.all_properties,
                    *db,
                    added_view(Ok(()), text),
                ));
            }
            Ok(())
        },
        Err(e) => {
            assert(file_shown(
                input,
                options.all_properties,
                *db,
                added_view(Err(e), Seq::empty()),
            ));
            Err(e)
        },
    }
}

} // verus!
