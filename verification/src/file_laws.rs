//! What holds of every merge of files.

use rbx_reflection::ReflectionDatabase;
use vstd::prelude::*;

use crate::agreement_laws;
use crate::context::Ctx;
use crate::copy_laws;
use crate::determinism;
use crate::dom;
use crate::dom::Forest;
use crate::error::ErrorModel;
use crate::exchange_laws;
use crate::files;
use crate::files::{InputModel, ReportModel, Request};
use crate::format::FileFormat;
use crate::graph::GraphModel;
use crate::identity::IdentityModel;
use crate::identity_laws;
use crate::matching::Classes;
use crate::merging;
use crate::merging::OutcomeModel;
use crate::resolve;
use crate::resolve::{ResolutionsModel, Side};
use crate::semantic;
use crate::semantic::DomModel;
use crate::shape_laws;
use crate::text::Text;
use crate::three_way;
use crate::tree;
use crate::twin_laws;
use crate::written_laws;

verus! {

/// An explicit format goes before the path, and the path before the content.
pub proof fn law_format_precedence(
    bytes: Seq<u8>,
    other: Seq<u8>,
    path: Option<Text>,
    other_path: Option<Text>,
    explicit: Option<FileFormat>,
)
    ensures
        explicit is Some ==> crate::format::detected_format(bytes, path, explicit)
            == crate::format::detected_format(other, other_path, explicit),
        path is Some && crate::format::extension_format(
            crate::format::extension(path->0),
        ) is Some ==> crate::format::detected_format(bytes, path, None)
            == crate::format::detected_format(other, path, None),
{
}

proof fn lemma_rows_report(
    base: DomModel,
    ours: DomModel,
    theirs: DomModel,
    request: Request,
    db: ReflectionDatabase<'static>,
    outcome: Result<ReportModel, ErrorModel>,
)
    requires
        files::doms_merged(base, ours, theirs, request, db, outcome),
        outcome is Ok,
    ensures
        outcome->Ok_0.merged is Some <==> outcome->Ok_0.conflicts.len() == 0,
{
}

/// Bytes are written only where the merge has no conflicts, and then they are.
pub proof fn law_report_has_bytes_or_conflicts(
    base: InputModel,
    ours: InputModel,
    theirs: InputModel,
    output: Option<FileFormat>,
    resolutions: ResolutionsModel,
    db: ReflectionDatabase<'static>,
    outcome: Result<ReportModel, ErrorModel>,
)
    requires
        files::files_merged(base, ours, theirs, output, resolutions, db, outcome),
        outcome is Ok,
    ensures
        outcome->Ok_0.merged is Some <==> outcome->Ok_0.conflicts.len() == 0,
{
    let b = choose|b: Result<(FileFormat, Forest), ErrorModel>| #[trigger]
        files::side_read(base, db, b) && match b {
            Err(e) => outcome == Err::<ReportModel, ErrorModel>(e),
            Ok((_, base_tree)) => exists|o: Result<(FileFormat, Forest), ErrorModel>| #[trigger]
                files::side_read(ours, db, o) && match o {
                    Err(e) => outcome == Err::<ReportModel, ErrorModel>(e),
                    Ok((format, ours_tree)) => exists|
                        t: Result<(FileFormat, Forest), ErrorModel>,
                    | #[trigger]
                        files::side_read(theirs, db, t) && match t {
                            Err(e) => outcome == Err::<ReportModel, ErrorModel>(e),
                            Ok((_, theirs_tree)) => files::forests_merged(
                                base_tree,
                                ours_tree,
                                theirs_tree,
                                Request {
                                    resolutions,
                                    format: files::output_format_of(
                                        ours.path,
                                        output,
                                        ours.format,
                                        format,
                                    ),
                                    path: ours.path,
                                },
                                db,
                                outcome,
                            ),
                        },
                },
        };
    let base_tree = b->Ok_0.1;
    let o = choose|o: Result<(FileFormat, Forest), ErrorModel>| #[trigger]
        files::side_read(ours, db, o) && match o {
            Err(e) => outcome == Err::<ReportModel, ErrorModel>(e),
            Ok((format, ours_tree)) => exists|t: Result<(FileFormat, Forest), ErrorModel>|
                #[trigger]
                files::side_read(theirs, db, t) && match t {
                    Err(e) => outcome == Err::<ReportModel, ErrorModel>(e),
                    Ok((_, theirs_tree)) => files::forests_merged(
                        base_tree,
                        ours_tree,
                        theirs_tree,
                        Request {
                            resolutions,
                            format: files::output_format_of(
                                ours.path,
                                output,
                                ours.format,
                                format,
                            ),
                            path: ours.path,
                        },
                        db,
                        outcome,
                    ),
                },
        };
    let (format, ours_tree) = o->Ok_0;
    let request = Request {
        resolutions,
        format: files::output_format_of(ours.path, output, ours.format, format),
        path: ours.path,
    };
    let t = choose|t: Result<(FileFormat, Forest), ErrorModel>| #[trigger]
        files::side_read(theirs, db, t) && match t {
            Err(e) => outcome == Err::<ReportModel, ErrorModel>(e),
            Ok((_, theirs_tree)) => files::forests_merged(
                base_tree,
                ours_tree,
                theirs_tree,
                request,
                db,
                outcome,
            ),
        };
    let theirs_tree = t->Ok_0.1;
    assert(files::forests_merged(base_tree, ours_tree, theirs_tree, request, db, outcome));
    let (x, y, z) = choose|x: DomModel, y: DomModel, z: DomModel|
        #![trigger semantic::represents(x, base_tree), semantic::represents(y, ours_tree), semantic::represents(z, theirs_tree)]
        semantic::represents(x, base_tree) && semantic::represents(y, ours_tree)
            && semantic::represents(z, theirs_tree) && files::doms_merged(
            x,
            y,
            z,
            request,
            db,
            outcome,
        );
    lemma_rows_report(x, y, z, request, db, outcome);
}

/// The files and rows of a merge, whatever the rows are, are regular for a side.
pub open spec fn is_regular(
    base: DomModel,
    ours: DomModel,
    theirs: DomModel,
    resolutions: ResolutionsModel,
    db: ReflectionDatabase<'static>,
    w: Side,
) -> bool {
    forall|rows: IdentityModel| #[trigger]
        files::is_identity(base, ours, theirs, dom::classes(db), rows)
            ==> agreement_laws::regular(Ctx { base, ours, theirs, rows, resolutions }, w)
}

/// Merging files of which one side is an unchanged copy of the base never reports a
/// conflict: a report, if there is one, has the merged bytes.
pub proof fn law_unchanged_side_merges_cleanly(
    base: DomModel,
    ours: DomModel,
    theirs: DomModel,
    request: Request,
    db: ReflectionDatabase<'static>,
    outcome: Result<ReportModel, ErrorModel>,
)
    requires
        semantic::dom_wf(base),
        semantic::dom_wf(ours),
        semantic::dom_wf(theirs),
        files::doms_merged(base, ours, theirs, request, db, outcome),
        (copy_laws::is_copy(base, theirs) && is_regular(
            base,
            ours,
            theirs,
            request.resolutions,
            db,
            Side::Ours,
        )) || (copy_laws::is_copy(base, ours) && is_regular(
            base,
            ours,
            theirs,
            request.resolutions,
            db,
            Side::Theirs,
        )),
    ensures
        outcome is Ok ==> outcome->Ok_0.merged is Some && outcome->Ok_0.conflicts.len() == 0,
{
    let resolutions = request.resolutions;
    let classes = dom::classes(db);
    let (rows, g) = choose|rows: IdentityModel, g: GraphModel|
        #![trigger files::is_identity(base, ours, theirs, classes, rows), merging::is_merged_graph(Ctx { base, ours, theirs, rows, resolutions }, g)]
        files::is_identity(base, ours, theirs, classes, rows) && files::rows_merged(
            Ctx { base, ours, theirs, rows, resolutions },
            g,
            request,
            db,
            outcome,
        );
    let ctx = Ctx { base, ours, theirs, rows, resolutions };
    copy_laws::law_unchanged_side_gives_the_other(ctx, classes, g);
}

/// The rows of three files are determined by the files.
proof fn lemma_rows_determined(
    base: DomModel,
    ours: DomModel,
    theirs: DomModel,
    classes: Classes,
    a: IdentityModel,
    b: IdentityModel,
)
    requires
        files::is_identity(base, ours, theirs, classes, a),
        files::is_identity(base, ours, theirs, classes, b),
    ensures
        a == b,
{
    assert forall|i: int| 0 <= i < a.ours_rows.len() implies a.ours_rows[i] == b.ours_rows[i] by {
        assert(a.entries[a.ours_rows[i] as int].ours == Some(i as usize));
    }
    assert forall|i: int| 0 <= i < a.theirs_rows.len() implies a.theirs_rows[i] == b.theirs_rows[i] by {
        assert(a.entries[a.theirs_rows[i] as int].theirs == Some(i as usize));
    }
    assert(a.ours_rows =~= b.ours_rows);
    assert(a.theirs_rows =~= b.theirs_rows);
}

/// The rows and the merged graph that a report comes of.
proof fn lemma_graph_of(
    base: DomModel,
    ours: DomModel,
    theirs: DomModel,
    request: Request,
    db: ReflectionDatabase<'static>,
    outcome: Result<ReportModel, ErrorModel>,
) -> (res: (Ctx, GraphModel))
    requires
        files::doms_merged(base, ours, theirs, request, db, outcome),
    ensures
        res.0 == (Ctx { base, ours, theirs, rows: res.0.rows, resolutions: request.resolutions }),
        files::is_identity(base, ours, theirs, dom::classes(db), res.0.rows),
        merging::is_merged_graph(res.0, res.1),
        files::rows_merged(res.0, res.1, request, db, outcome),
        (outcome is Ok && outcome->Ok_0.conflicts.len() > 0) <==> merging::merge_conflicts(
            res.0,
            res.1,
        ).len() > 0,
{
    let resolutions = request.resolutions;
    let (rows, g) = choose|rows: IdentityModel, g: GraphModel|
        #![trigger files::is_identity(base, ours, theirs, dom::classes(db), rows), merging::is_merged_graph(Ctx { base, ours, theirs, rows, resolutions }, g)]
        files::is_identity(base, ours, theirs, dom::classes(db), rows) && files::rows_merged(
            Ctx { base, ours, theirs, rows, resolutions },
            g,
            request,
            db,
            outcome,
        );
    (Ctx { base, ours, theirs, rows, resolutions }, g)
}

/// Merging a file with itself never reports a conflict, whatever is decided.
pub proof fn law_self_merge_reports_no_conflict(
    base: DomModel,
    ours: DomModel,
    theirs: DomModel,
    request: Request,
    db: ReflectionDatabase<'static>,
    outcome: Result<ReportModel, ErrorModel>,
)
    requires
        semantic::dom_wf(base),
        semantic::dom_wf(ours),
        semantic::dom_wf(theirs),
        files::doms_merged(base, ours, theirs, request, db, outcome),
        copy_laws::is_copy(base, ours),
        copy_laws::is_copy(base, theirs),
        twin_laws::distinct_ids(base),
    ensures
        outcome is Ok ==> outcome->Ok_0.merged is Some && outcome->Ok_0.conflicts.len() == 0,
{
    let (ctx, g) = lemma_graph_of(base, ours, theirs, request, db, outcome);
    shape_laws::law_self_merge_is_clean(ctx, dom::classes(db), g);
}

/// The rows of three files, whatever they are, have referents of their own, and
/// additions that both sides made have the same unique ids.
pub open spec fn is_exchangeable(
    base: DomModel,
    ours: DomModel,
    theirs: DomModel,
    resolutions: ResolutionsModel,
    db: ReflectionDatabase<'static>,
) -> bool {
    forall|rows: IdentityModel| #[trigger]
        files::is_identity(base, ours, theirs, dom::classes(db), rows) ==> {
            let ctx = Ctx { base, ours, theirs, rows, resolutions };
            agreement_laws::refs_apart(ctx) && exchange_laws::joint_ids_agree(ctx)
        }
}

/// Exchanging ours and theirs, where nothing is decided, leads to conflicts if and
/// only if there were conflicts.
pub proof fn law_exchanged_files_conflict_alike(
    base: DomModel,
    ours: DomModel,
    theirs: DomModel,
    request: Request,
    exchanged: Request,
    db: ReflectionDatabase<'static>,
    a: Result<ReportModel, ErrorModel>,
    b: Result<ReportModel, ErrorModel>,
)
    requires
        semantic::dom_wf(base),
        semantic::dom_wf(ours),
        semantic::dom_wf(theirs),
        files::doms_merged(base, ours, theirs, request, db, a),
        files::doms_merged(base, theirs, ours, exchanged, db, b),
        resolve::undecided(request.resolutions),
        resolve::undecided(exchanged.resolutions),
        is_exchangeable(base, ours, theirs, request.resolutions, db),
    ensures
        (a is Ok && a->Ok_0.conflicts.len() > 0) <==> (b is Ok && b->Ok_0.conflicts.len() > 0),
{
    let (c, g) = lemma_graph_of(base, ours, theirs, request, db, a);
    let (d, h) = lemma_graph_of(base, theirs, ours, exchanged, db, b);
    exchange_laws::law_exchanged_sides_conflict_alike(c, d, dom::classes(db), g, h);
}

/// Merging the same files twice gives the same conflicts and the same remarks: a
/// report depends on its input alone, but for the bytes, in which referents and unique
/// ids that were made anew may differ.
pub proof fn law_same_files_same_report(
    base: DomModel,
    ours: DomModel,
    theirs: DomModel,
    request: Request,
    db: ReflectionDatabase<'static>,
    a: Result<ReportModel, ErrorModel>,
    b: Result<ReportModel, ErrorModel>,
)
    requires
        files::doms_merged(base, ours, theirs, request, db, a),
        files::doms_merged(base, ours, theirs, request, db, b),
    ensures
        (a is Ok && a->Ok_0.conflicts.len() > 0) ==> a == b,
        a is Ok && b is Ok ==> {
            &&& a->Ok_0.conflicts == b->Ok_0.conflicts
            &&& a->Ok_0.diagnostics == b->Ok_0.diagnostics
            &&& a->Ok_0.merged is Some <==> b->Ok_0.merged is Some
        },
{
    let classes = dom::classes(db);
    let (c, g) = lemma_graph_of(base, ours, theirs, request, db, a);
    let (d, h) = lemma_graph_of(base, ours, theirs, request, db, b);
    lemma_rows_determined(base, ours, theirs, classes, c.rows, d.rows);
    determinism::law_merge_is_determined(c, classes, g, h);
    let before = files::first_remarks(base, ours, theirs, classes);
    assert(merging::remarks_of(c, classes, g, before) == merging::remarks_of(
        c,
        classes,
        h,
        before,
    ));
}

// ---------------------------------------------------------------------------
// What is written
// ---------------------------------------------------------------------------

/// Whether the bytes of a report are those of a tree.
pub open spec fn writes_tree(
    tree: Forest,
    request: Request,
    db: ReflectionDatabase<'static>,
    report: ReportModel,
) -> bool {
    report.merged is Some && crate::format::encoded(
        tree,
        tree.instances[tree.root].children,
        request.format,
        db,
        Ok(report.merged->0),
    )
}

/// Whether a tree has the instances of a file and no others, with these referents:
/// each has its class, its name, its children in their order, and its properties but for
/// the unique id.
pub open spec fn is_tree_of(d: DomModel, tree: Forest, refs: Seq<u128>) -> bool {
    &&& refs.len() == d.len()
    &&& tree.root == refs[0]
    &&& forall|i: int|
        0 <= i < d.len() ==> {
            let x = #[trigger] refs[i];
            &&& tree.instances.contains_key(x)
            &&& tree.instances[x].class == d[i].class
            &&& tree.instances[x].name == d[i].name
            &&& tree.instances[x].children == d[i].children.map_values(|c: usize| refs[c as int])
            &&& written_laws::properties_stand(
                d,
                refs,
                d[i].properties,
                tree.instances[x].properties,
            )
        }
    &&& forall|x: u128| #[trigger] tree.instances.contains_key(x) ==> refs.contains(x)
}

/// Whether what was written is the tree of instances of a file.
pub open spec fn writes_file(
    d: DomModel,
    request: Request,
    db: ReflectionDatabase<'static>,
    report: ReportModel,
) -> bool {
    exists|tree: Forest, refs: Seq<u128>| #[trigger]
        is_tree_of(d, tree, refs) && writes_tree(tree, request, db, report)
}

/// The tree of a merge without conflicts.
proof fn lemma_tree_of(
    ctx: Ctx,
    g: GraphModel,
    request: Request,
    db: ReflectionDatabase<'static>,
    outcome: Result<ReportModel, ErrorModel>,
) -> (tree: Forest)
    requires
        files::rows_merged(ctx, g, request, db, outcome),
        merging::merge_conflicts(ctx, g).len() == 0,
        outcome is Ok,
    ensures
        merging::outcome_of(ctx, g, OutcomeModel::Merged(tree)),
        writes_tree(tree, request, db, outcome->Ok_0),
{
    let remarks = files::first_remarks(ctx.base, ctx.ours, ctx.theirs, dom::classes(db))
        + merging::remarks_on(ctx, dom::classes(db), merging::finished(ctx, g));
    choose|tree: Forest| #[trigger]
        merging::outcome_of(ctx, g, OutcomeModel::Merged(tree)) && files::written(
            tree,
            request,
            db,
            remarks,
            outcome,
        )
}

/// Where the merge takes a side, the instances of that side are written.
proof fn lemma_taken_is_written(
    ctx: Ctx,
    g: GraphModel,
    w: Side,
    request: Request,
    db: ReflectionDatabase<'static>,
    outcome: Result<ReportModel, ErrorModel>,
)
    requires
        ctx.wf(),
        files::rows_merged(ctx, g, request, db, outcome),
        agreement_laws::takes_side(ctx, g, w),
        outcome is Ok,
    ensures
        writes_file(
            ctx.file(three_way::source_of_side(w))->0,
            request,
            db,
            outcome->Ok_0,
        ),
{
    let f = merging::finished(ctx, g);
    let d = ctx.file(three_way::source_of_side(w))->0;
    let tree = lemma_tree_of(ctx, g, request, db, outcome);
    agreement_laws::law_taken_side_is_built(ctx, g, w, OutcomeModel::Merged(tree));
    let refs = written_laws::merged_refs(ctx, f, w);
    assert forall|i: int| 0 <= i < d.len() implies ({
        let x = #[trigger] refs[i];
        &&& tree.instances.contains_key(x)
        &&& tree.instances[x].class == d[i].class
        &&& tree.instances[x].name == d[i].name
        &&& tree.instances[x].children == d[i].children.map_values(|c: usize| refs[c as int])
        &&& written_laws::properties_stand(
            d,
            refs,
            d[i].properties,
            tree.instances[x].properties,
        )
    }) by {
        written_laws::law_taken_properties_are_built(
            ctx,
            g,
            w,
            OutcomeModel::Merged(tree),
            i as usize,
        );
        let x = agreement_laws::merged_referent(ctx, f, w, i as usize);
        assert forall|j: int| 0 <= j < d[i].children.len() implies (#[trigger] d[i].children[j])
            < d.len() by {
            reveal(semantic::links_wf);
        }
        assert(d[i].children.map_values(|c: usize| refs[c as int]) =~= d[i].children.map_values(
            |c: usize| agreement_laws::merged_referent(ctx, f, w, c),
        ));
    }
    assert forall|x: u128| #[trigger] tree.instances.contains_key(x) implies refs.contains(x) by {
        let i = choose|i: usize|
            i < d.len() && #[trigger] agreement_laws::merged_referent(ctx, f, w, i) == x;
        assert(refs[i as int] == x);
    }
    assert(is_tree_of(d, tree, refs));
}

/// Where one side is an unchanged copy of the base, the instances of the other side
/// are written, and where both are, those of the base: each with its class, its name,
/// its children in their order and its properties but for the unique id, and no others.
pub proof fn law_unchanged_side_writes_the_other(
    base: DomModel,
    ours: DomModel,
    theirs: DomModel,
    request: Request,
    db: ReflectionDatabase<'static>,
    outcome: Result<ReportModel, ErrorModel>,
)
    requires
        semantic::dom_wf(base),
        semantic::dom_wf(ours),
        semantic::dom_wf(theirs),
        files::doms_merged(base, ours, theirs, request, db, outcome),
        outcome is Ok,
    ensures
        copy_laws::is_copy(base, theirs) && is_regular(
            base,
            ours,
            theirs,
            request.resolutions,
            db,
            Side::Ours,
        ) ==> writes_file(ours, request, db, outcome->Ok_0),
        copy_laws::is_copy(base, ours) && is_regular(
            base,
            ours,
            theirs,
            request.resolutions,
            db,
            Side::Theirs,
        ) ==> writes_file(theirs, request, db, outcome->Ok_0),
{
    let (ctx, g) = lemma_graph_of(base, ours, theirs, request, db, outcome);
    copy_laws::law_unchanged_side_gives_the_other(ctx, dom::classes(db), g);
    if agreement_laws::takes_side(ctx, g, Side::Ours) {
        lemma_taken_is_written(ctx, g, Side::Ours, request, db, outcome);
    }
    if agreement_laws::takes_side(ctx, g, Side::Theirs) {
        lemma_taken_is_written(ctx, g, Side::Theirs, request, db, outcome);
    }
}

/// Where both sides made the same edits, there are no conflicts, and the instances of
/// ours are written.
pub proof fn law_same_edits_are_written(
    base: DomModel,
    ours: DomModel,
    theirs: DomModel,
    request: Request,
    db: ReflectionDatabase<'static>,
    outcome: Result<ReportModel, ErrorModel>,
)
    requires
        semantic::dom_wf(base),
        semantic::dom_wf(ours),
        semantic::dom_wf(theirs),
        files::doms_merged(base, ours, theirs, request, db, outcome),
        outcome is Ok,
        is_regular(base, ours, theirs, request.resolutions, db, Side::Ours),
        forall|rows: IdentityModel| #[trigger]
            files::is_identity(base, ours, theirs, dom::classes(db), rows) ==> twin_laws::same_edits(
                Ctx { base, ours, theirs, rows, resolutions: request.resolutions },
                dom::classes(db),
            ),
    ensures
        outcome->Ok_0.conflicts.len() == 0,
        writes_file(ours, request, db, outcome->Ok_0),
{
    let (ctx, g) = lemma_graph_of(base, ours, theirs, request, db, outcome);
    twin_laws::law_same_edits_merge_to_either(ctx, dom::classes(db), g);
    lemma_taken_is_written(ctx, g, Side::Ours, request, db, outcome);
}

/// A unique id that one instance of each file has is in what is written, where there
/// are no conflicts and nothing had to be decided.
pub proof fn law_kept_unique_id_is_written(
    base: DomModel,
    ours: DomModel,
    theirs: DomModel,
    request: Request,
    db: ReflectionDatabase<'static>,
    outcome: Result<ReportModel, ErrorModel>,
    i: int,
    o: int,
    t: int,
    id: u128,
)
    requires
        semantic::dom_wf(base),
        semantic::dom_wf(ours),
        semantic::dom_wf(theirs),
        files::doms_merged(base, ours, theirs, request, db, outcome),
        resolve::undecided(request.resolutions),
        outcome is Ok,
        outcome->Ok_0.conflicts.len() == 0,
        identity_laws::has_alone(base, i, id),
        identity_laws::has_alone(ours, o, id),
        identity_laws::has_alone(theirs, t, id),
    ensures
        exists|tree: Forest| #[trigger]
            writes_tree(tree, request, db, outcome->Ok_0) && tree::has_id(tree, id),
{
    let (ctx, g) = lemma_graph_of(base, ours, theirs, request, db, outcome);
    let built = lemma_tree_of(ctx, g, request, db, outcome);
    identity_laws::law_kept_unique_id_is_built(
        ctx,
        dom::classes(db),
        g,
        OutcomeModel::Merged(built),
        i,
        o,
        t,
        id,
    );
    assert(writes_tree(built, request, db, outcome->Ok_0));
}

} // verus!
