//! What reading a report gives back of writing it.

use vstd::prelude::*;

use crate::conflict;
use crate::conflict::ConflictModel;
use crate::report;
use crate::report::Fields;
use crate::resolve;
use crate::resolve::{ResolutionsModel, Side};
use crate::scan;
use crate::setup_laws;
use crate::text::Text;

verus! {

/// The name of a side.
pub open spec fn side_name(side: Side) -> Text {
    match side {
        Side::Base => "base"@,
        Side::Ours => "ours"@,
        Side::Theirs => "theirs"@,
    }
}

/// Whether a text does not hold the line that marks a conflict.
pub open spec fn without_marker(s: Text) -> bool {
    forall|i: int| 0 <= i ==> !#[trigger] scan::matches_at(s, report::conflict_marker(), i)
}

/// Whether a text can stand on a line of the report.
pub open spec fn fits_a_line(s: Text) -> bool {
    setup_laws::is_one_line(s) && without_marker(s)
}

/// Whether a text can be read back from a line of the report.
pub open spec fn is_readable(s: Text) -> bool {
    fits_a_line(s) && scan::trim(s) == s
}

pub open spec fn fits_if_there(s: Option<Text>) -> bool {
    s matches Some(v) ==> fits_a_line(v)
}

/// Whether a conflict can be read back from the report: its texts are lines, and
/// its path and its property have no white space around them.
pub open spec fn is_reportable(c: ConflictModel) -> bool {
    &&& is_readable(c.path)
    &&& c.property matches Some(p) ==> is_readable(p) && p.len() > 0 && p != "<none>"@
    &&& fits_if_there(c.base)
    &&& fits_if_there(c.ours)
    &&& fits_if_there(c.theirs)
}

/// The decisions with the first `n` conflicts decided for a side.
pub open spec fn decided(r: ResolutionsModel, list: Seq<ConflictModel>, side: Side, n: int) -> ResolutionsModel
    decreases n,
{
    if n <= 0 {
        r
    } else {
        let before = decided(r, list, side, n - 1);
        let c = list[n - 1];
        ResolutionsModel {
            default: before.default,
            overrides: before.overrides.insert((c.kind, c.path, c.property), side),
        }
    }
}

// ---------------------------------------------------------------------------
// Trimming
// ---------------------------------------------------------------------------

proof fn lemma_trim_end_keeps(x: Text, r: Text)
    requires
        x.len() > 0,
        !scan::is_space(x.last()),
    ensures
        scan::trim_end(x + r) == x + scan::trim_end(r),
    decreases r.len(),
{
    let s = x + r;
    if r.len() == 0 {
        assert(s =~= x);
        assert(x + scan::trim_end(r) =~= x);
    } else {
        assert(s.last() == r.last());
        if scan::is_space(r.last()) {
            assert(s.drop_last() =~= x + r.drop_last());
            lemma_trim_end_keeps(x, r.drop_last());
        }
    }
}

proof fn lemma_trim_end_front(c: char, r: Text)
    ensures
        scan::trim_end(seq![c] + r) == (if scan::trim_end(r).len() == 0 {
            scan::trim_end(seq![c])
        } else {
            seq![c] + scan::trim_end(r)
        }),
    decreases r.len(),
{
    let s = seq![c] + r;
    if r.len() == 0 {
        assert(s =~= seq![c]);
    } else {
        assert(s.last() == r.last());
        if scan::is_space(r.last()) {
            assert(s.drop_last() =~= seq![c] + r.drop_last());
            lemma_trim_end_front(c, r.drop_last());
        }
    }
}

proof fn lemma_trim_end_twice(r: Text)
    ensures
        scan::trim_end(scan::trim_end(r)) == scan::trim_end(r),
    decreases r.len(),
{
    if r.len() > 0 && scan::is_space(r.last()) {
        lemma_trim_end_twice(r.drop_last());
    }
}

proof fn lemma_trims_commute(r: Text)
    ensures
        scan::trim_start(scan::trim_end(r)) == scan::trim_end(scan::trim_start(r)),
    decreases r.len(),
{
    if r.len() > 0 {
        let c = r[0];
        let rest = r.drop_first();
        assert(r =~= seq![c] + rest);
        lemma_trim_end_front(c, rest);
        if scan::is_space(c) {
            lemma_trims_commute(rest);
            if scan::trim_end(rest).len() == 0 {
                let one = seq![c];
                assert(one.drop_last() =~= Seq::<char>::empty());
                assert(one.last() == c);
                assert(scan::trim_end(one.drop_last()) =~= Seq::<char>::empty());
                assert(scan::trim_end(one) =~= Seq::<char>::empty());
                assert(scan::trim_end(rest) =~= Seq::<char>::empty());
            } else {
                assert((seq![c] + scan::trim_end(rest)).drop_first() =~= scan::trim_end(rest));
            }
        } else {
            let one = seq![c];
            assert(one.last() == c);
            assert(scan::trim_end(r)[0] == c);
        }
    }
}

proof fn lemma_trim_after_trim_end(r: Text)
    ensures
        scan::trim(scan::trim_end(r)) == scan::trim(r),
{
    lemma_trims_commute(r);
    lemma_trim_end_twice(scan::trim_start(r));
}

// ---------------------------------------------------------------------------
// One line
// ---------------------------------------------------------------------------

/// Whether a text can be a key of the report.
spec fn is_key(key: Text) -> bool {
    &&& key.len() > 0
    &&& key[0] != '#'
    &&& forall|i: int|
        0 <= i < key.len() ==> !scan::is_space(#[trigger] key[i]) && key[i] != '=' && key[i] != '['
            && key[i] != '\n'
}

proof fn lemma_signs()
    ensures
        " = "@ == seq![' ', '=', ' '],
        "="@ == seq!['='],
        "\n"@ == seq!['\n'],
{
    reveal_strlit(" = ");
    reveal_strlit("=");
    reveal_strlit("\n");
    assert(" = "@ =~= seq![' ', '=', ' ']);
    assert("="@ =~= seq!['=']);
    assert("\n"@ =~= seq!['\n']);
}

/// What a line of the report says.
proof fn lemma_line_says(f: Fields, key: Text, v: Text)
    requires
        is_key(key),
    ensures
        report::with_line(f, key + " = "@ + v) == report::with_value(f, key, scan::trim(v)),
{
    lemma_signs();
    let line = key + " = "@ + v;
    let x = key + seq![' ', '='];
    let r = seq![' '] + v;
    assert(line =~= x + r);
    assert(line[0] == key[0]);
    assert(!scan::is_space(key[0]));
    assert(scan::trim_start(line) == line);
    lemma_trim_end_keeps(x, r);
    let t = x + scan::trim_end(r);
    assert(scan::trim(line) == t);
    assert(t[0] == key[0]);
    let at = key.len() as int + 1;
    let sign = seq!['='];
    assert(t[at] == '=');
    assert(t.subrange(at, at + 1) =~= sign);
    assert forall|j: int| 0 <= j < at implies !#[trigger] scan::matches_at(t, sign, j) by {
        if scan::matches_at(t, sign, j) {
            assert(t.subrange(j, j + 1)[0] == t[j]);
            assert(sign[0] == '=');
            if j < key.len() {
                assert(t[j] == key[j]);
            }
        }
    }
    scan::lemma_find_is(t, sign, 0, at);
    let head = t.take(at);
    assert(head =~= key + seq![' ']);
    assert(head[0] == key[0]);
    assert(scan::trim_start(head) == head);
    assert(head.drop_last() =~= key);
    assert(key.last() == key[key.len() - 1]);
    assert(scan::trim_end(key) == key);
    assert(scan::trim(head) == key);
    assert(t.skip(at + 1) =~= scan::trim_end(r));
    lemma_trim_after_trim_end(r);
    assert(r[0] == ' ');
    assert(r.drop_first() =~= v);
    assert(scan::trim(r) == scan::trim(v));
}

/// What some lines say after others.
proof fn lemma_lines_say(f: Fields, a: Seq<Text>, b: Seq<Text>)
    ensures
        report::with_lines(f, a + b) == report::with_lines(report::with_lines(f, a), b),
    decreases b.len(),
{
    if b.len() == 0 {
        assert(a + b =~= a);
    } else {
        let s = a + b;
        assert(s.drop_last() =~= a + b.drop_last());
        assert(s.last() == b.last());
        lemma_lines_say(f, a, b.drop_last());
    }
}

/// Whether a text ends a line.
spec fn ends_a_line(s: Text) -> bool {
    s.len() > 0 && s.last() == '\n'
}

/// A field after the lines before it.
proof fn lemma_field_says(before: Text, f: Fields, key: Text, v: Text)
    requires
        ends_a_line(before),
        report::with_lines(report::no_fields(), scan::lines(before)) == f,
        is_key(key),
        setup_laws::is_one_line(v),
    ensures
        ends_a_line(before + report::field(key, v)),
        report::with_lines(
            report::no_fields(),
            scan::lines(before + report::field(key, v)),
        ) == report::with_value(f, key, scan::trim(v)),
{
    lemma_signs();
    let line = key + " = "@ + v;
    let piece = report::field(key, v);
    assert(piece =~= line + seq!['\n']);
    assert forall|i: int| 0 <= i < line.len() implies #[trigger] line[i] != '\n' by {
        if i < key.len() {
            assert(line[i] == key[i]);
        } else if i >= key.len() + 3 {
            assert(line[i] == v[i - key.len() - 3]);
        }
    }
    setup_laws::lemma_lines_concat(before, piece);
    setup_laws::lemma_one_line(line);
    let one = seq![scan::without_return(line)];
    lemma_lines_say(report::no_fields(), scan::lines(before), one);
    assert(one.drop_last() =~= Seq::<Text>::empty());
    assert(report::with_lines(f, Seq::<Text>::empty()) == f);
    assert(report::with_lines(f, one) == report::with_line(f, scan::without_return(line)));
    setup_laws::lemma_trim_without_return(line);
    assert(report::with_line(f, scan::without_return(line)) == report::with_line(f, line));
    lemma_line_says(f, key, v);
    assert((before + piece).last() == piece.last());
}

proof fn lemma_optional_says(before: Text, f: Fields, key: Text, v: Option<Text>)
    requires
        ends_a_line(before),
        report::with_lines(report::no_fields(), scan::lines(before)) == f,
        is_key(key),
        fits_if_there(v),
        key != "kind"@,
        key != "path"@,
        key != "property"@,
        key != "resolution"@,
    ensures
        ends_a_line(before + report::optional_field(key, v)),
        report::with_lines(
            report::no_fields(),
            scan::lines(before + report::optional_field(key, v)),
        ) == f,
{
    match v {
        Some(v) => lemma_field_says(before, f, key, v),
        None => {
            assert(before + Seq::<char>::empty() =~= before);
        },
    }
}

/// The keys of the report.
proof fn lemma_keys()
    ensures
        is_key("kind"@),
        is_key("path"@),
        is_key("property"@),
        is_key("resolution"@),
        is_key("base"@),
        is_key("ours"@),
        is_key("theirs"@),
        "path"@ != "kind"@,
        "base"@ != "kind"@,
        "base"@ != "path"@,
        "ours"@ != "kind"@,
        "ours"@ != "path"@,
        "base"@ != "ours"@,
        "property"@.len() == 8,
        "resolution"@.len() == 10,
        "theirs"@.len() == 6,
        "kind"@.len() == 4,
        "path"@.len() == 4,
        "base"@.len() == 4,
        "ours"@.len() == 4,
{
    reveal_strlit("kind");
    reveal_strlit("path");
    reveal_strlit("property");
    reveal_strlit("resolution");
    reveal_strlit("base");
    reveal_strlit("ours");
    reveal_strlit("theirs");
    assert("kind"@[0] == 'k' && "path"@[0] == 'p' && "base"@[0] == 'b' && "ours"@[0] == 'o');
}

proof fn lemma_kind_line(c: ConflictModel)
    ensures
        setup_laws::is_one_line(conflict::kind_name(c.kind)),
        scan::trim(conflict::kind_name(c.kind)) == conflict::kind_name(c.kind),
        forall|i: int|
            0 <= i < conflict::kind_name(c.kind).len() ==> #[trigger] conflict::kind_name(
                c.kind,
            )[i] != '[',
{
    reveal_strlit("InstanceIdentity");
    reveal_strlit("UniqueIdCollision");
    reveal_strlit("DeleteModify");
    reveal_strlit("PropertyValue");
    reveal_strlit("ParentMove");
    reveal_strlit("ParentCycle");
    reveal_strlit("ChildOrder");
    reveal_strlit("RefTarget");
}

/// What the lines of a conflict say.
proof fn lemma_body_says(c: ConflictModel, word: Text)
    requires
        is_reportable(c),
        is_readable(word),
    ensures
        report::with_lines(
            report::no_fields(),
            scan::lines(report::conflict_body(c, word)),
        ) == (Fields {
            kind: Some(c.kind),
            path: Some(c.path),
            property: c.property,
            side: report::named_side(word),
        }),
{
    lemma_signs();
    lemma_keys();
    let none = report::no_fields();
    let start = "\n"@;
    setup_laws::lemma_one_line(Seq::<char>::empty());
    assert(Seq::<char>::empty() + seq!['\n'] =~= start);
    let first = seq![scan::without_return(Seq::<char>::empty())];
    assert(first.drop_last() =~= Seq::<Text>::empty());
    assert(report::with_lines(none, Seq::<Text>::empty()) == none);
    assert(scan::trim(Seq::<char>::empty()).len() == 0);
    assert(report::with_lines(none, first) == none);
    let name = conflict::kind_name(c.kind);
    lemma_kind_line(c);
    conflict::law_kind_names_round_trip(c.kind);
    lemma_field_says(start, none, "kind"@, name);
    let s1 = start + report::field("kind"@, name);
    let f1 = Fields { kind: Some(c.kind), ..none };
    lemma_field_says(s1, f1, "path"@, c.path);
    let s2 = s1 + report::field("path"@, c.path);
    let f2 = Fields { path: Some(c.path), ..f1 };
    let p = report::property_word(c.property);
    lemma_property_word(c);
    lemma_field_says(s2, f2, "property"@, p);
    let s3 = s2 + report::field("property"@, p);
    let f3 = Fields { property: c.property, ..f2 };
    lemma_optional_says(s3, f3, "base"@, c.base);
    let s4 = s3 + report::optional_field("base"@, c.base);
    lemma_optional_says(s4, f3, "ours"@, c.ours);
    let s5 = s4 + report::optional_field("ours"@, c.ours);
    lemma_optional_says(s5, f3, "theirs"@, c.theirs);
    let s6 = s5 + report::optional_field("theirs"@, c.theirs);
    lemma_field_says(s6, f3, "resolution"@, word);
    let s7 = s6 + report::field("resolution"@, word);
    let f7 = Fields { side: report::named_side(word), ..f3 };
    setup_laws::lemma_lines_concat(s7, start);
    lemma_lines_say(none, scan::lines(s7), first);
    assert(report::with_lines(f7, Seq::<Text>::empty()) == f7);
    assert(report::with_lines(f7, first) == f7);
    assert(report::conflict_body(c, word) == s7 + start);
}

proof fn lemma_property_word(c: ConflictModel)
    requires
        is_reportable(c),
    ensures
        is_readable(report::property_word(c.property)),
        report::with_value(
            report::no_fields(),
            "property"@,
            report::property_word(c.property),
        ).property == c.property,
{
    lemma_keys();
    lemma_marker();
    reveal_strlit("<none>");
    let s = "<none>"@;
    assert(s[0] == '<' && s[5] == '>' && s.len() == 6);
    assert(scan::trim(s) == s);
    assert forall|i: int| 0 <= i implies !#[trigger] scan::matches_at(
        s,
        report::conflict_marker(),
        i,
    ) by {}
}

// ---------------------------------------------------------------------------
// The parts of a report
// ---------------------------------------------------------------------------

proof fn lemma_marker()
    ensures
        report::conflict_marker().len() == 12,
        report::conflict_marker()[0] == '[',
        setup_laws::is_one_line(report::conflict_marker()),
{
    reveal_strlit("[[conflict]]");
}

/// A text without a bracket in front of one without a marker.
proof fn lemma_prefix_free(prefix: Text, v: Text)
    requires
        forall|i: int| 0 <= i < prefix.len() ==> #[trigger] prefix[i] != '[',
        without_marker(v),
    ensures
        without_marker(prefix + v),
{
    lemma_marker();
    let m = report::conflict_marker();
    let s = prefix + v;
    assert forall|i: int| 0 <= i implies !#[trigger] scan::matches_at(s, m, i) by {
        if scan::matches_at(s, m, i) {
            let t = s.subrange(i, i + m.len());
            assert(t[0] == s[i]);
            if i < prefix.len() {
                assert(s[i] == prefix[i]);
            } else {
                assert(v.subrange(i - prefix.len(), i - prefix.len() + m.len()) =~= t);
                assert(scan::matches_at(v, m, i - prefix.len()));
            }
        }
    }
}

proof fn lemma_free_concat(a: Text, b: Text)
    requires
        without_marker(a),
        without_marker(b),
        a.len() == 0 || a.last() == '\n',
    ensures
        without_marker(a + b),
{
    lemma_marker();
    let m = report::conflict_marker();
    assert forall|i: int| 0 <= i implies !#[trigger] scan::matches_at(a + b, m, i) by {
        if scan::matches_at(a + b, m, i) {
            setup_laws::lemma_no_straddle(a, b, m, i);
            if i >= a.len() {
                assert(scan::matches_at(b, m, i - a.len()));
            } else {
                assert(scan::matches_at(a, m, i));
            }
        }
    }
}

proof fn lemma_empty_free()
    ensures
        without_marker(Seq::<char>::empty()),
{
    lemma_marker();
}

proof fn lemma_field_free(key: Text, v: Text)
    requires
        is_key(key),
        without_marker(v),
    ensures
        without_marker(report::field(key, v)),
        ends_a_line(report::field(key, v)),
{
    lemma_signs();
    lemma_marker();
    let m = report::conflict_marker();
    let prefix = key + " = "@;
    assert forall|i: int| 0 <= i < prefix.len() implies #[trigger] prefix[i] != '[' by {
        if i < key.len() {
            assert(prefix[i] == key[i]);
        }
    }
    lemma_prefix_free(prefix, v);
    let line = prefix + v;
    let s = report::field(key, v);
    assert(s =~= line + seq!['\n']);
    assert forall|i: int| 0 <= i implies !#[trigger] scan::matches_at(s, m, i) by {
        if scan::matches_at(s, m, i) {
            setup_laws::lemma_in_line(line, m, i);
            assert(scan::matches_at(line, m, i));
        }
    }
}

proof fn lemma_optional_free(before: Text, key: Text, v: Option<Text>)
    requires
        is_key(key),
        fits_if_there(v),
        without_marker(before),
        ends_a_line(before),
    ensures
        without_marker(before + report::optional_field(key, v)),
        ends_a_line(before + report::optional_field(key, v)),
{
    match v {
        Some(v) => {
            lemma_field_free(key, v);
            lemma_free_concat(before, report::field(key, v));
        },
        None => {
            assert(before + Seq::<char>::empty() =~= before);
        },
    }
}

/// The lines of a conflict do not hold the line that marks one.
proof fn lemma_body_free(c: ConflictModel, word: Text)
    requires
        is_reportable(c),
        is_readable(word),
    ensures
        without_marker(report::conflict_body(c, word)),
        ends_a_line(report::conflict_body(c, word)),
{
    lemma_signs();
    lemma_keys();
    lemma_empty_free();
    let nl = "\n"@;
    assert(nl + Seq::<char>::empty() =~= nl);
    lemma_prefix_free(nl, Seq::<char>::empty());
    let name = conflict::kind_name(c.kind);
    lemma_kind_line(c);
    assert(name + Seq::<char>::empty() =~= name);
    lemma_prefix_free(name, Seq::<char>::empty());
    lemma_field_free("kind"@, name);
    lemma_free_concat(nl, report::field("kind"@, name));
    let s1 = nl + report::field("kind"@, name);
    lemma_field_free("path"@, c.path);
    lemma_free_concat(s1, report::field("path"@, c.path));
    let s2 = s1 + report::field("path"@, c.path);
    let p = report::property_word(c.property);
    lemma_property_word(c);
    lemma_field_free("property"@, p);
    lemma_free_concat(s2, report::field("property"@, p));
    let s3 = s2 + report::field("property"@, p);
    lemma_optional_free(s3, "base"@, c.base);
    let s4 = s3 + report::optional_field("base"@, c.base);
    lemma_optional_free(s4, "ours"@, c.ours);
    let s5 = s4 + report::optional_field("ours"@, c.ours);
    lemma_optional_free(s5, "theirs"@, c.theirs);
    let s6 = s5 + report::optional_field("theirs"@, c.theirs);
    lemma_field_free("resolution"@, word);
    lemma_free_concat(s6, report::field("resolution"@, word));
    let s7 = s6 + report::field("resolution"@, word);
    lemma_free_concat(s7, nl);
    assert(report::conflict_body(c, word) == s7 + nl);
}

/// One more part behind a marker.
proof fn lemma_split_more(x: Text, y: Text)
    requires
        x.len() == 0 || x.last() == '\n',
        without_marker(y),
    ensures
        scan::split_by(x + report::conflict_marker() + y, report::conflict_marker())
            == scan::split_by(x, report::conflict_marker()).push(y),
    decreases x.len(),
{
    lemma_marker();
    let m = report::conflict_marker();
    let s = x + m + y;
    let tail = m + y;
    assert(s =~= x + tail);
    scan::lemma_find(x, m, 0);
    match scan::find(x, m, 0) {
        None => {
            let n = x.len() as int;
            assert(s.subrange(n, n + m.len()) =~= m);
            assert forall|j: int| 0 <= j < n implies !#[trigger] scan::matches_at(s, m, j) by {
                if scan::matches_at(s, m, j) {
                    setup_laws::lemma_no_straddle(x, tail, m, j);
                    assert(scan::matches_at(x, m, j));
                }
            }
            scan::lemma_find_is(s, m, 0, n);
            assert(s.take(n) =~= x);
            assert(s.skip(n + m.len()) =~= y);
            scan::lemma_find_none(y, m, 0);
            assert(scan::split_by(y, m) =~= seq![y]);
            assert(seq![x] + seq![y] =~= seq![x].push(y));
        },
        Some(i) => {
            assert(s.subrange(i, i + m.len()) =~= x.subrange(i, i + m.len()));
            assert forall|j: int| 0 <= j < i implies !#[trigger] scan::matches_at(s, m, j) by {
                if scan::matches_at(s, m, j) {
                    assert(x.subrange(j, j + m.len()) =~= s.subrange(j, j + m.len()));
                    assert(scan::matches_at(x, m, j));
                }
            }
            scan::lemma_find_is(s, m, 0, i);
            let rest = x.skip(i + m.len());
            if rest.len() > 0 {
                assert(rest.last() == x.last());
            }
            assert(s.take(i) =~= x.take(i));
            assert(s.skip(i + m.len()) =~= rest + m + y);
            lemma_split_more(rest, y);
            let a = seq![x.take(i)];
            let b = scan::split_by(rest, m);
            assert(a + b.push(y) =~= (a + b).push(y));
        },
    }
}

/// The parts of a report are what stands before the conflicts, then the conflicts.
proof fn lemma_report_parts(list: Seq<ConflictModel>, word: Text, n: int)
    requires
        0 <= n <= list.len(),
        is_readable(word),
        forall|i: int| 0 <= i < list.len() ==> is_reportable(#[trigger] list[i]),
    ensures
        ({
            let s = report::report_header() + report::report_blocks(list, word, n);
            let parts = scan::split_by(s, report::conflict_marker());
            &&& ends_a_line(s)
            &&& parts.len() == n + 1
            &&& forall|i: int|
                1 <= i <= n ==> #[trigger] parts[i] == report::conflict_body(list[i - 1], word)
        }),
    decreases n,
{
    let m = report::conflict_marker();
    let s = report::report_header() + report::report_blocks(list, word, n);
    if n == 0 {
        lemma_header();
        assert(s =~= report::report_header());
        scan::lemma_find_none(s, m, 0);
    } else {
        lemma_report_parts(list, word, n - 1);
        let before = report::report_header() + report::report_blocks(list, word, n - 1);
        let body = report::conflict_body(list[n - 1], word);
        lemma_body_free(list[n - 1], word);
        assert(s =~= before + m + body);
        lemma_split_more(before, body);
        assert(s.last() == body.last());
    }
}

proof fn lemma_header()
    ensures
        without_marker(report::report_header()),
        ends_a_line(report::report_header()),
{
    lemma_marker();
    lemma_empty_free();
    reveal_strlit(
        "# rbx-merge conflict report\n# Set `resolution` for each conflict to one of: ours, theirs, base\n# Then re-run the same merge with --resolutions <this file>.\n# For RefTarget and UniqueIdCollision the side is not used: any value\n# applies the fix (drop the dangling reference / the duplicate UniqueId).\n\n",
    );
    let s = report::report_header();
    assert(forall|i: int| 0 <= i < s.len() ==> #[trigger] s[i] != '[');
    assert(s + Seq::<char>::empty() =~= s);
    lemma_prefix_free(s, Seq::<char>::empty());
}

proof fn lemma_words()
    ensures
        is_readable("unresolved"@),
        is_readable("base"@),
        is_readable("ours"@),
        is_readable("theirs"@),
        report::named_side("unresolved"@) is None,
        report::named_side("base"@) == Some(Side::Base),
        report::named_side("ours"@) == Some(Side::Ours),
        report::named_side("theirs"@) == Some(Side::Theirs),
{
    lemma_keys();
    lemma_marker();
    reveal_strlit("unresolved");
    reveal_strlit("base");
    reveal_strlit("ours");
    reveal_strlit("theirs");
    assert("unresolved"@.len() == 10);
}

/// What a report says whose conflicts are all decided alike.
proof fn lemma_report_says(r: ResolutionsModel, list: Seq<ConflictModel>, word: Text, n: int)
    requires
        0 <= n <= list.len(),
        is_readable(word),
        forall|i: int| 0 <= i < list.len() ==> is_reportable(#[trigger] list[i]),
    ensures
        ({
            let parts = scan::split_by(
                report::report_with(list, word),
                report::conflict_marker(),
            );
            report::with_parts(r, parts, n + 1) == (match report::named_side(word) {
                Some(side) => decided(r, list, side, n),
                None => r,
            })
        }),
    decreases n,
{
    let parts = scan::split_by(report::report_with(list, word), report::conflict_marker());
    lemma_report_parts(list, word, list.len() as int);
    if n > 0 {
        lemma_report_says(r, list, word, n - 1);
        lemma_body_says(list[n - 1], word);
        assert(parts[n] == report::conflict_body(list[n - 1], word));
    }
}

/// A report in which a side was written for every conflict decides every conflict
/// for that side, and decides nothing else.
pub proof fn law_edited_report_decides(r: ResolutionsModel, list: Seq<ConflictModel>, side: Side)
    requires
        forall|i: int| 0 <= i < list.len() ==> is_reportable(#[trigger] list[i]),
    ensures
        report::with_report(r, report::report_with(list, side_name(side))) == decided(
            r,
            list,
            side,
            list.len() as int,
        ),
        forall|i: int|
            0 <= i < list.len() ==> resolve::resolution(
                report::with_report(r, report::report_with(list, side_name(side))),
                (#[trigger] list[i]).kind,
                list[i].path,
                list[i].property,
            ) == Some(side),
{
    lemma_words();
    let word = side_name(side);
    lemma_report_says(r, list, word, list.len() as int);
    lemma_report_parts(list, word, list.len() as int);
    assert forall|i: int| 0 <= i < list.len() implies resolve::resolution(
        decided(r, list, side, list.len() as int),
        (#[trigger] list[i]).kind,
        list[i].path,
        list[i].property,
    ) == Some(side) by {
        lemma_decided(r, list, side, list.len() as int, i);
    }
}

proof fn lemma_decided(r: ResolutionsModel, list: Seq<ConflictModel>, side: Side, n: int, i: int)
    requires
        0 <= i < n <= list.len(),
    ensures
        ({
            let d = decided(r, list, side, n);
            let key = (list[i].kind, list[i].path, list[i].property);
            d.overrides.contains_key(key) && d.overrides[key] == side
        }),
    decreases n,
{
    if i < n - 1 {
        lemma_decided(r, list, side, n - 1, i);
    }
}

/// A report that was not edited decides nothing.
pub proof fn law_untouched_report_decides_nothing(r: ResolutionsModel, list: Seq<ConflictModel>)
    requires
        forall|i: int| 0 <= i < list.len() ==> is_reportable(#[trigger] list[i]),
    ensures
        report::with_report(r, report::report_with(list, "unresolved"@)) == r,
{
    lemma_words();
    lemma_report_says(r, list, "unresolved"@, list.len() as int);
    lemma_report_parts(list, "unresolved"@, list.len() as int);
}

} // verus!
