//! What the drivers are set up with, and what a look at a clone finds good, doubtful or bad.

use vstd::prelude::*;

use crate::diagnostics;
use crate::format::FileFormat;
use crate::format_laws;
use crate::scan;
use crate::setup;
use crate::setup::{ExtPosture, Findings, InstallOptions, Verdict};
use crate::text::Text;

verus! {

/// The drivers are for the extension of every format and for no other.
pub proof fn law_extensions_are_those_of_the_formats(f: FileFormat, ext: Text)
    ensures
        setup::all_extensions().contains(format_laws::extension_word(f)),
        setup::all_extensions().contains(ext) ==> exists|g: FileFormat|
            ext == #[trigger] format_laws::extension_word(g),
        setup::all_extensions().len() == 4,
{
    let all = setup::all_extensions();
    assert(all[0] == format_laws::extension_word(FileFormat::BinaryPlace));
    assert(all[1] == format_laws::extension_word(FileFormat::XmlPlace));
    assert(all[2] == format_laws::extension_word(FileFormat::BinaryModel));
    assert(all[3] == format_laws::extension_word(FileFormat::XmlModel));
    if all.contains(ext) {
        let i = all.index_of(ext);
        assert(all[i] == ext);
    }
}

/// The driver runs the program with the three files, the place of the result and the path,
/// each behind its own flag, and with a place for stashed files where one is asked for.
pub proof fn law_driver_hands_over_all_files(path: Text)
    ensures
        setup::driver_command(path, false) == setup::quoted_path(path)
            + " merge --base %O --ours %A --theirs %B --out %A --path %P"@,
        setup::driver_command(path, true) == setup::driver_command(path, false)
            + " --stash-dir .rbxmerge/%P"@,
{
}

/// A path can stand in a driver just where it is not empty and holds no percent sign.
pub proof fn law_driver_path_is_refused(path: Text)
    ensures
        setup::path_refusal(path) is None <==> path.len() > 0 && forall|i: int|
            0 <= i < path.len() ==> #[trigger] path[i] != '%',
{
    if path.contains('%') {
        let i = path.index_of('%');
        assert(path[i] == '%');
    }
}

/// An installation for the machine touches the machine alone, one for a clone the clone
/// alone; conflicts are hidden just where a clone stashes them; the committed default is
/// written just where it is asked for.
pub proof fn law_install_goes_where_it_is_asked(options: InstallOptions)
    ensures
        ({
            let plan = setup::plan_of(options);
            &&& plan.global_config <==> options.global
            &&& plan.attributes is Machine <==> options.global
            &&& plan.attributes is Clone <==> !options.global
            &&& plan.exclude is Append <==> options.stash && !options.global
            &&& plan.exclude is Remove <==> !options.stash && !options.global
            &&& plan.exclude is Leave <==> options.global
            &&& plan.gitattributes <==> options.write_gitattributes
        }),
{
}

// ---------------------------------------------------------------------------
// Attributes
// ---------------------------------------------------------------------------

/// Whether a line is a rule for an extension with one attribute.
pub open spec fn is_rule(line: Text, ext: Text, attribute: Text) -> bool {
    let t = scan::trim(line);
    &&& t.len() > 0
    &&& t[0] != '#'
    &&& scan::words(t) == seq!["*."@ + ext, attribute]
}

/// The last rule for an extension says what becomes of it: it is safe where its files are
/// binary or not merged, given to the driver where the rule names it, and to another one
/// where the rule names that. Other attributes, rules for other patterns and comments say
/// nothing.
#[verifier::rlimit(50)]
pub proof fn law_last_rule_says_it(lines: Seq<Text>, line: Text, ext: Text, attribute: Text)
    ensures
        ({
            let before = setup::posture_lines(lines, ext, lines.len() as int);
            let after = setup::posture_lines(lines.push(line), ext, lines.len() as int + 1);
            let t = scan::trim(line);
            &&& is_rule(line, ext, "binary"@) ==> after is Safe
            &&& is_rule(line, ext, "-merge"@) ==> after is Safe
            &&& is_rule(line, ext, "merge=rbxdom"@) ==> after is Driver
            &&& is_rule(line, ext, "merge="@ + attribute) && attribute != "rbxdom"@
                ==> after is Other
            &&& is_rule(line, ext, attribute) && attribute != "binary"@ && attribute != "-merge"@
                && !"merge="@.is_prefix_of(attribute) ==> after == before
            &&& t.len() > 0 && t[0] == '#' ==> after == before
            &&& scan::words(t).len() == 0 ==> after == before
            &&& scan::words(t).len() > 0 && scan::words(t)[0] != "*."@ + ext ==> after == before
        }),
        setup::posture_lines(Seq::empty(), ext, 0) is Unmentioned,
{
    reveal_strlit("binary");
    reveal_strlit("-merge");
    reveal_strlit("merge=rbxdom");
    reveal_strlit("merge=");
    reveal_strlit("rbxdom");
    let n = lines.len() as int;
    let all = lines.push(line);
    let before = setup::posture_lines(lines, ext, n);
    lemma_same_posture(lines, all, ext, n);
    assert(all[n] == line);
    reveal_with_fuel(setup::posture_words, 3);
    let word = "merge="@ + attribute;
    assert("merge=rbxdom"@ =~= "merge="@ + "rbxdom"@);
    assert("merge=rbxdom"@.subrange(0, 6) =~= "merge="@);
    assert(word.subrange(0, 6) =~= "merge="@);
    if word == "merge=rbxdom"@ {
        assert(attribute =~= word.skip(6));
        assert("rbxdom"@ =~= "merge=rbxdom"@.skip(6));
    }
    assert(word[0] == 'm' && "binary"@[0] == 'b' && "-merge"@[0] == '-');
    assert("merge=rbxdom"@[0] == 'm');
    if attribute == "merge=rbxdom"@ {
        assert("merge="@.is_prefix_of(attribute));
    }
}

proof fn lemma_same_posture(a: Seq<Text>, b: Seq<Text>, ext: Text, n: int)
    requires
        n <= a.len() <= b.len(),
        forall|i: int| 0 <= i < n ==> #[trigger] a[i] == b[i],
    ensures
        setup::posture_lines(a, ext, n) == setup::posture_lines(b, ext, n),
    decreases n,
{
    if n > 0 {
        lemma_same_posture(a, b, ext, n - 1);
        assert(a[n - 1] == b[n - 1]);
    }
}

/// The committed attributes are never found bad, and good just where every extension is
/// safe in them.
pub proof fn law_committed_attributes_are_good_where_safe(contents: Text)
    ensures
        !(setup::committed_check(contents).0 is Bad),
        setup::committed_check(contents).0 is Good <==> forall|f: FileFormat|
            setup::posture_of(contents, #[trigger] format_laws::extension_word(f)) is Safe,
{
    let all = setup::all_extensions();
    assert(all[0] == format_laws::extension_word(FileFormat::BinaryPlace));
    assert(all[1] == format_laws::extension_word(FileFormat::XmlPlace));
    assert(all[2] == format_laws::extension_word(FileFormat::BinaryModel));
    assert(all[3] == format_laws::extension_word(FileFormat::XmlModel));
    if forall|f: FileFormat|
        setup::posture_of(contents, #[trigger] format_laws::extension_word(f)) is Safe {
        assert forall|i: int| 0 <= i < all.len() implies setup::posture_of(
            contents,
            #[trigger] all[i],
        ) == ExtPosture::Safe by {
            law_extensions_are_those_of_the_formats(FileFormat::BinaryModel, all[i]);
            assert(all.contains(all[i]));
        }
    }
    if setup::committed_check(contents).0 is Good {
        assert forall|f: FileFormat|
            setup::posture_of(contents, #[trigger] format_laws::extension_word(f)) is Safe by {
            law_extensions_are_those_of_the_formats(f, all[0]);
            let i = all.index_of(format_laws::extension_word(f));
            assert(setup::posture_of(contents, all[i]) == ExtPosture::Safe);
        }
    }
}

// ---------------------------------------------------------------------------
// What Git says
// ---------------------------------------------------------------------------

/// The words that Git puts before its version are left out.
pub proof fn law_version_is_bare(version: Text)
    ensures
        setup::bare_version("git version "@ + version) == setup::bare_version(version),
        !"git version "@.is_prefix_of(version) ==> setup::bare_version(version) == version,
{
    reveal_strlit("git version ");
    let words = "git version "@;
    let t = words + version;
    assert(t.subrange(0, words.len() as int) =~= words);
    assert(t.skip(words.len() as int) =~= version);
}

proof fn lemma_last_place(s: Text, pat: Text, upto: int, i: int)
    requires
        0 <= i <= upto,
        scan::matches_at(s, pat, i),
        forall|j: int| i < j <= upto ==> !(#[trigger] scan::matches_at(s, pat, j)),
    ensures
        scan::find_last(s, pat, upto) == Some(i),
    decreases upto - i,
{
    if i < upto {
        assert(!scan::matches_at(s, pat, upto));
        lemma_last_place(s, pat, upto - 1, i);
    }
}

proof fn lemma_last_colon(head: Text, tail: Text)
    requires
        format_laws::lacks(tail, ':'),
    ensures
        scan::find_last(
            head + seq![':', ' '] + tail,
            ": "@,
            (head + seq![':', ' '] + tail).len() as int,
        ) == Some(head.len() as int),
{
    reveal_strlit(": ");
    assert(": "@ =~= seq![':', ' ']);
    let t = head + seq![':', ' '] + tail;
    let i = head.len() as int;
    assert(t.subrange(i, i + 2) =~= ": "@);
    assert forall|j: int| i < j <= t.len() implies !(#[trigger] scan::matches_at(t, ": "@, j)) by {
        if scan::matches_at(t, ": "@, j) {
            assert(t.subrange(j, j + 2)[0] == t[j]);
            if j > i + 1 {
                assert(t[j] == tail[j - i - 2]);
            }
        }
    }
    lemma_last_place(t, ": "@, t.len() as int, i);
}

/// Of a line of a path, an attribute and its value, with a colon and a blank between them,
/// the attribute and the value are read, whatever the path holds.
#[verifier::rlimit(50)]
pub proof fn law_attribute_lines_are_read(path: Text, attribute: Text, value: Text)
    requires
        format_laws::lacks(attribute, ':'),
        format_laws::lacks(value, ':'),
    ensures
        setup::last_fields(path + seq![':', ' '] + attribute + seq![':', ' '] + value) == Some(
            (attribute, value),
        ),
{
    reveal_strlit(": ");
    let head = path + seq![':', ' '] + attribute;
    let line = head + seq![':', ' '] + value;
    lemma_last_colon(head, value);
    lemma_last_colon(path, attribute);
    assert(line.take(head.len() as int) =~= head);
    assert(line.skip(head.len() as int + 2) =~= value);
    assert(head.skip(path.len() as int + 2) =~= attribute);
}

// ---------------------------------------------------------------------------
// Checks
// ---------------------------------------------------------------------------

/// An extension is good just where its files are given to the driver, doubtful where they
/// are not merged at all, and bad in every other case. The message names its pattern.
#[verifier::rlimit(50)]
pub proof fn law_extensions_are_good_with_the_driver(ext: Text, value: Option<Text>)
    ensures
        ({
            let (verdict, message) = setup::extension_check(ext, value);
            &&& verdict is Good <==> value == Some("rbxdom"@)
            &&& verdict is Doubtful <==> value == Some("unset"@)
            &&& verdict is Bad <==> value != Some("rbxdom"@) && value != Some("unset"@)
            &&& exists|n: int|
                0 <= n && #[trigger] scan::matches_at(message, "*."@ + ext, n)
        }),
{
    reveal_strlit("rbxdom");
    reveal_strlit("unset");
    reveal_strlit("unspecified");
    assert("rbxdom"@.len() != "unset"@.len());
    assert("rbxdom"@.len() != "unspecified"@.len());
    assert("unset"@.len() != "unspecified"@.len());
    let (verdict, message) = setup::extension_check(ext, value);
    let pattern = "*."@ + ext;
    if verdict is Good {
        let start = "semantic merge active for *."@;
        reveal_strlit("semantic merge active for *.");
        reveal_strlit("*.");
        let n = start.len() - 2;
        assert(message.subrange(n, n + pattern.len()) =~= pattern);
        assert(scan::matches_at(message, pattern, n));
    } else {
        assert(message.subrange(0, pattern.len() as int) =~= pattern);
        assert(scan::matches_at(message, pattern, 0));
    }
}

/// A check is shown by a mark of its verdict before its message; checks have failed once one
/// of them is bad, and only then.
pub proof fn law_checks_fail_by_a_bad_one(before: setup::Checks, verdict: Verdict, message: Text)
    ensures
        ({
            let after = setup::with_check(before, verdict, message);
            let line = after.lines.last();
            &&& after.failed <==> before.failed || verdict is Bad
            &&& after.lines.len() == before.lines.len() + 1
            &&& after.lines.drop_last() == before.lines
            &&& line.skip(7) == message
            &&& line.take(7) == match verdict {
                Verdict::Good => "[ ok ] "@,
                Verdict::Doubtful => "[warn] "@,
                Verdict::Bad => "[FAIL] "@,
            }
        }),
{
    reveal_strlit("[ ok ] ");
    reveal_strlit("[warn] ");
    reveal_strlit("[FAIL] ");
    let after = setup::with_check(before, verdict, message);
    let line = after.lines.last();
    assert(after.lines.drop_last() =~= before.lines);
    assert(line.skip(7) =~= message);
    assert(line.take(7) =~= match verdict {
        Verdict::Good => "[ ok ] "@,
        Verdict::Doubtful => "[warn] "@,
        Verdict::Bad => "[FAIL] "@,
    });
}

/// Whether an attribute that was found is bad.
pub open spec fn is_bad(value: Option<Text>) -> bool {
    value != Some("rbxdom"@) && value != Some("unset"@)
}

#[verifier::rlimit(50)]
proof fn lemma_extension_checks(
    before: setup::Checks,
    attributes: Seq<Option<String>>,
    n: int,
)
    requires
        0 <= n <= 4,
    ensures
        setup::extension_checks(before, attributes, n).failed <==> before.failed || exists|i: int|
            0 <= i < n && is_bad(
                if i < attributes.len() {
                    diagnostics::option_text(#[trigger] attributes[i])
                } else {
                    None
                },
            ),
    decreases n,
{
    if n > 0 {
        lemma_extension_checks(before, attributes, n - 1);
        let value = if n - 1 < attributes.len() {
            diagnostics::option_text(attributes[n - 1])
        } else {
            None
        };
        law_extensions_are_good_with_the_driver(setup::all_extensions()[n - 1], value);
        assert(setup::extension_checks(before, attributes, n).failed <==> setup::extension_checks(
            before,
            attributes,
            n - 1,
        ).failed || is_bad(value));
        if is_bad(value) {
            let i = n - 1;
            assert(is_bad(
                if i < attributes.len() {
                    diagnostics::option_text(attributes[i])
                } else {
                    None
                },
            ));
        }
    }
}

/// A look at a clone fails just where there is no Git, no repository, no program that runs,
/// no driver, or an extension whose files are given neither to the driver nor left alone.
#[verifier::rlimit(50)]
pub proof fn law_clone_fails_by_what_is_missing(f: Findings)
    ensures
        setup::all_checks(f).failed <==> f.version is None || f.git_dir is None || !f.runnable
            || f.driver is None || exists|i: int|
            0 <= i < 4 && is_bad(
                if i < f.attributes@.len() {
                    diagnostics::option_text(#[trigger] f.attributes@[i])
                } else {
                    None
                },
            ),
{
    if f.version is Some && f.git_dir is Some {
        let version = diagnostics::option_text(f.version)->0;
        let dir = diagnostics::option_text(f.git_dir)->0;
        let first = setup::with_check(
            setup::no_checks(),
            Verdict::Good,
            setup::bare_version(version),
        );
        let before = setup::with_check(
            first,
            Verdict::Good,
            "inside Git repository ("@ + dir + ")"@,
        );
        assert(!before.failed);
        let driver = diagnostics::option_text(f.driver);
        let program = setup::program_of(driver);
        let a = if f.runnable {
            setup::with_check(before, Verdict::Good, program + " executable found"@)
        } else {
            setup::with_check(
                before,
                Verdict::Bad,
                program + " not runnable — install the binary or fix --driver-path"@,
            )
        };
        let b = if driver is Some {
            setup::with_check(a, Verdict::Good, "merge driver configured (merge.rbxdom.driver)"@)
        } else {
            setup::with_check(
                a,
                Verdict::Bad,
                "merge driver not configured — run `rbx-merge install`"@,
            )
        };
        let c = if f.textconv {
            setup::with_check(b, Verdict::Good, "diff textconv configured (diff.rbxdom.textconv)"@)
        } else {
            setup::with_check(
                b,
                Verdict::Doubtful,
                "diff textconv not configured — semantic diffs disabled"@,
            )
        };
        lemma_extension_checks(c, f.attributes@, 4);
        if let Some(contents) = diagnostics::option_text(f.committed) {
            law_committed_attributes_are_good_where_safe(contents);
        }
    }
}

} // verus!
