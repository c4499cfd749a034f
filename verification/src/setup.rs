//! Setting a clone up for the drivers: what is written where, and what a look at
//! the clone finds.

use vstd::prelude::*;

use crate::scan;
use crate::scan::{
    find_back, find_from, is_text, is_white_space, part, split_lines, split_words, stands_at,
    trimmed, trimmed_start,
};
use crate::text;
use crate::text::{chars_of, join_strings, quote, same_text, string_of, Text};

verus! {

/// What `install` is asked for.
#[derive(Debug, Clone, PartialEq, Eq)]
pub struct InstallOptions {
    /// Set every repository of this machine up, in place of one clone.
    pub global: bool,
    /// The program that the drivers run.
    pub driver_path: String,
    /// Whether conflicts are kept in a directory of their own, so that they can be
    /// resolved later.
    pub stash: bool,
    /// Whether the safe default is written to the committed attributes too.
    pub write_gitattributes: bool,
}

/// The extensions that the drivers are for.
pub open spec fn all_extensions() -> Seq<Text> {
    seq!["rbxl"@, "rbxlx"@, "rbxm"@, "rbxmx"@]
}

/// Lists the extensions that the drivers are for.
pub fn extensions() -> (res: Vec<String>)
    ensures
        text::strings_view(res@) == all_extensions(),
{
    let mut list: Vec<String> = Vec::new();
    list.push("rbxl".to_owned());
    list.push("rbxlx".to_owned());
    list.push("rbxm".to_owned());
    list.push("rbxmx".to_owned());
    assert(text::strings_view(list@) =~= all_extensions());
    list
}

/// The line that the managed block starts with.
#[verifier::opaque]
pub open spec fn begin_marker() -> Text {
    "# BEGIN rbx-merge (managed) — edit install flags and re-run, or delete to uninstall"@
}

/// The line that the managed block ends with.
#[verifier::opaque]
pub open spec fn end_marker() -> Text {
    "# END rbx-merge"@
}

/// The line that the managed block starts with.
pub fn begin_line() -> (res: &'static str)
    ensures
        res@ == begin_marker(),
{
    reveal(begin_marker);
    "# BEGIN rbx-merge (managed) — edit install flags and re-run, or delete to uninstall"
}

/// The line that the managed block ends with.
pub fn end_line() -> (res: &'static str)
    ensures
        res@ == end_marker(),
{
    reveal(end_marker);
    "# END rbx-merge"
}

// ---------------------------------------------------------------------------
// The command line of a driver
// ---------------------------------------------------------------------------

/// Whether a character needs no quotes in a shell.
pub open spec fn is_plain(c: char) -> bool {
    ||| '0' <= c <= '9'
    ||| 'A' <= c <= 'Z'
    ||| 'a' <= c <= 'z'
    ||| c == '_'
    ||| c == '-'
    ||| c == '.'
    ||| c == '/'
    ||| c == '+'
    ||| c == ':'
    ||| c == '@'
    ||| c == '~'
}

/// Whether a path needs no quotes in a shell.
pub open spec fn is_plain_path(s: Text) -> bool {
    s.len() > 0 && forall|i: int| 0 <= i < s.len() ==> is_plain(#[trigger] s[i])
}

/// A text as it stands between single quotes: a single quote ends the quotation,
/// stands by itself behind a backslash, and begins the quotation anew.
pub open spec fn escaped(s: Text) -> Text
    decreases s.len(),
{
    if s.len() == 0 {
        Seq::empty()
    } else if s.last() == '\'' {
        escaped(s.drop_last()) + seq!['\'', '\\', '\'', '\'']
    } else {
        escaped(s.drop_last()).push(s.last())
    }
}

/// A path as it stands in a command line.
pub open spec fn quoted_path(s: Text) -> Text {
    if is_plain_path(s) {
        s
    } else {
        seq!['\''] + escaped(s) + seq!['\'']
    }
}

fn needs_no_quotes(c: char) -> (res: bool)
    ensures
        res == is_plain(c),
{
    let n: u32 = c as u32;
    (n >= 48 && n <= 57) || (n >= 65 && n <= 90) || (n >= 97 && n <= 122) || c == '_' || c == '-'
        || c == '.' || c == '/' || c == '+' || c == ':' || c == '@' || c == '~'
}

fn plain_path(chars: &Vec<char>) -> (res: bool)
    ensures
        res == is_plain_path(chars@),
{
    if chars.len() == 0 {
        return false;
    }
    let mut i: usize = 0;
    while i < chars.len()
        invariant
            i <= chars.len(),
            forall|k: int| 0 <= k < i ==> is_plain(#[trigger] chars@[k]),
        decreases chars.len() - i,
    {
        if !needs_no_quotes(chars[i]) {
            return false;
        }
        i += 1;
    }
    true
}

/// Quotes a path for the shell that runs the drivers. A path that needs no quotes
/// stays as it is.
pub fn sh_quote(path: &str) -> (res: String)
    ensures
        res@ == quoted_path(path@),
{
    let chars = chars_of(path);
    if plain_path(&chars) {
        return path.to_owned();
    }
    let mut out: Vec<char> = vec!['\''];
    let mut i: usize = 0;
    assert(out@ =~= seq!['\''] + escaped(chars@.take(0)));
    while i < chars.len()
        invariant
            i <= chars.len(),
            out@ == seq!['\''] + escaped(chars@.take(i as int)),
        decreases chars.len() - i,
    {
        let ghost before = escaped(chars@.take(i as int));
        assert(chars@.take(i + 1).drop_last() =~= chars@.take(i as int));
        if chars[i] == '\'' {
            out.push('\'');
            out.push('\\');
            out.push('\'');
            out.push('\'');
            assert(out@ =~= seq!['\''] + (before + seq!['\'', '\\', '\'', '\'']));
        } else {
            out.push(chars[i]);
            assert(out@ =~= seq!['\''] + before.push(chars@[i as int]));
        }
        i += 1;
    }
    assert(chars@.take(chars@.len() as int) =~= chars@);
    out.push('\'');
    assert(out@ =~= quoted_path(path@));
    string_of(&out)
}

/// The word that a shell reads, within a quotation or outside of one.
pub open spec fn shell_word(s: Text, quotation: Option<char>) -> Text
    decreases s.len(),
{
    if s.len() == 0 {
        Seq::empty()
    } else {
        let c = s[0];
        let rest = s.drop_first();
        match quotation {
            Some(q) => if c == q {
                shell_word(rest, None)
            } else {
                seq![c] + shell_word(rest, quotation)
            },
            None => if c == '\'' || c == '"' {
                shell_word(rest, Some(c))
            } else if c == '\\' {
                if rest.len() > 0 {
                    seq![rest[0]] + shell_word(rest.drop_first(), None)
                } else {
                    Seq::empty()
                }
            } else if scan::is_space(c) {
                Seq::empty()
            } else {
                seq![c] + shell_word(rest, None)
            },
        }
    }
}

/// The first word of a command line, unless it is empty.
pub open spec fn first_word(command: Text) -> Option<Text> {
    let word = shell_word(scan::trim_start(command), None);
    if word.len() == 0 {
        None
    } else {
        Some(word)
    }
}

/// Reads the first word of a command line.
pub fn first_shell_word(command: &str) -> (res: Option<String>)
    ensures
        crate::diagnostics::option_text(res) == first_word(command@),
{
    let all = chars_of(command);
    let chars = trimmed_start(&all);
    let mut word: Vec<char> = Vec::new();
    let mut quotation: Option<char> = None;
    let mut i: usize = 0;
    let ghost whole = shell_word(chars@, None);
    assert(chars@.skip(0) =~= chars@);
    assert(word@ + whole =~= whole);
    while i < chars.len()
        invariant_except_break
            i <= chars.len(),
            whole == word@ + shell_word(chars@.skip(i as int), quotation),
        ensures
            whole == word@,
        decreases chars.len() - i,
    {
        let c: char = chars[i];
        let ghost rest = chars@.skip(i as int);
        let ghost before = word@;
        proof {
            assert(rest[0] == c);
            assert(rest.drop_first() =~= chars@.skip(i + 1));
        }
        match quotation {
            Some(q) => {
                if c == q {
                    quotation = None;
                } else {
                    word.push(c);
                    assert(before + (seq![c] + shell_word(chars@.skip(i + 1), quotation))
                        =~= word@ + shell_word(chars@.skip(i + 1), quotation));
                }
            },
            None => {
                if c == '\'' || c == '"' {
                    quotation = Some(c);
                } else if c == '\\' {
                    if i + 1 < chars.len() {
                        i += 1;
                        let e: char = chars[i];
                        word.push(e);
                        proof {
                            assert(rest.drop_first()[0] == e);
                            assert(rest.drop_first().drop_first() =~= chars@.skip(i + 1));
                            assert(before + (seq![e] + shell_word(chars@.skip(i + 1), None))
                                =~= word@ + shell_word(chars@.skip(i + 1), None));
                        }
                    } else {
                        assert(chars@.skip(i + 1) =~= Seq::<char>::empty());
                        assert(word@ + Seq::<char>::empty() =~= word@);
                    }
                } else if is_white_space(c) {
                    assert(word@ + Seq::<char>::empty() =~= word@);
                    break;
                } else {
                    word.push(c);
                    assert(before + (seq![c] + shell_word(chars@.skip(i + 1), None)) =~= word@
                        + shell_word(chars@.skip(i + 1), None));
                }
            },
        }
        i += 1;
        proof {
            if i == chars.len() {
                assert(chars@.skip(i as int) =~= Seq::<char>::empty());
                assert(word@ + Seq::<char>::empty() =~= word@);
            }
        }
    }
    if word.len() == 0 {
        None
    } else {
        Some(string_of(&word))
    }
}

/// The command line of the merge driver.
pub open spec fn driver_command(path: Text, stash: bool) -> Text {
    let base = quoted_path(path)
        + " merge --base %O --ours %A --theirs %B --out %A --path %P"@;
    if stash {
        base + " --stash-dir .rbxmerge/%P"@
    } else {
        base
    }
}

/// Writes the command line of the merge driver.
pub fn merge_driver(driver_path: &str, stash: bool) -> (res: String)
    ensures
        res@ == driver_command(driver_path@, stash),
{
    let mut out = sh_quote(driver_path);
    out.append(" merge --base %O --ours %A --theirs %B --out %A --path %P");
    if stash {
        out.append(" --stash-dir .rbxmerge/%P");
    }
    out
}

/// Whether a path can stand in a driver: not the empty one, and none with a percent
/// sign, which would be replaced whatever quotes are around it.
pub open spec fn path_refusal(path: Text) -> Option<Text> {
    if path.len() == 0 {
        Some("--driver-path must not be empty"@)
    } else if path.contains('%') {
        Some(
            "--driver-path "@ + text::quoted(path)
                + " contains '%', which Git expands as a placeholder in driver commands; rename or move the executable"@,
        )
    } else {
        None
    }
}

/// Tells why a path cannot stand in a driver.
pub fn refuse_driver_path(path: &str) -> (res: Option<String>)
    ensures
        crate::diagnostics::option_text(res) == path_refusal(path@),
{
    let chars = chars_of(path);
    if chars.len() == 0 {
        return Some("--driver-path must not be empty".to_owned());
    }
    let mut i: usize = 0;
    while i < chars.len()
        invariant
            i <= chars.len(),
            chars@ == path@,
            forall|k: int| 0 <= k < i ==> chars@[k] != '%',
        decreases chars.len() - i,
    {
        if chars[i] == '%' {
            let mut message = "--driver-path ".to_owned();
            message.append(quote(path).as_str());
            message.append(
                " contains '%', which Git expands as a placeholder in driver commands; rename or move the executable",
            );
            assert(path@[i as int] == '%');
            return Some(message);
        }
        i += 1;
    }
    None
}

/// The settings of the drivers, by their names.
pub open spec fn config_entries(path: Text, stash: bool) -> Seq<(Text, Text)> {
    seq![
        ("merge.rbxdom.name"@, "Roblox semantic merge (rbx-merge)"@),
        ("merge.rbxdom.driver"@, driver_command(path, stash)),
        ("diff.rbxdom.textconv"@, quoted_path(path) + " textconv"@),
        ("diff.rbxdom.cachetextconv"@, "true"@),
    ]
}

pub open spec fn pairs_view(list: Seq<(String, String)>) -> Seq<(Text, Text)> {
    list.map_values(|p: (String, String)| (p.0@, p.1@))
}

/// Lists the settings of the drivers.
pub fn driver_config(driver_path: &str, stash: bool) -> (res: Vec<(String, String)>)
    ensures
        pairs_view(res@) == config_entries(driver_path@, stash),
{
    let mut textconv = sh_quote(driver_path);
    textconv.append(" textconv");
    let mut list: Vec<(String, String)> = Vec::new();
    list.push(
        ("merge.rbxdom.name".to_owned(), "Roblox semantic merge (rbx-merge)".to_owned()),
    );
    list.push(("merge.rbxdom.driver".to_owned(), merge_driver(driver_path, stash)));
    list.push(("diff.rbxdom.textconv".to_owned(), textconv));
    list.push(("diff.rbxdom.cachetextconv".to_owned(), "true".to_owned()));
    assert(pairs_view(list@) =~= config_entries(driver_path@, stash));
    list
}

// ---------------------------------------------------------------------------
// What is written where
// ---------------------------------------------------------------------------

/// Where the drivers are switched on.
#[derive(Debug, Clone, Copy, PartialEq, Eq, Structural)]
pub enum AttributesPlace {
    /// In the attributes of the clone that are not committed.
    Clone,
    /// In the attributes of the machine.
    Machine,
}

/// What becomes of the line that keeps stashed conflicts out of sight.
#[derive(Debug, Clone, Copy, PartialEq, Eq, Structural)]
pub enum ExcludeAction {
    Append,
    Remove,
    Leave,
}

/// What `install` does.
#[derive(Debug, Clone, Copy, PartialEq, Eq, Structural)]
pub struct InstallPlan {
    /// Whether the settings go to the configuration of the machine.
    pub global_config: bool,
    pub attributes: AttributesPlace,
    pub exclude: ExcludeAction,
    pub gitattributes: bool,
}

/// What `install` does: for one clone, the configuration and the attributes of the
/// clone, and a line that hides stashed conflicts where there are any; for the
/// machine, its configuration and its attributes, and nothing of the clone but what
/// is asked for by name.
pub open spec fn plan_of(options: InstallOptions) -> InstallPlan {
    InstallPlan {
        global_config: options.global,
        attributes: if options.global {
            AttributesPlace::Machine
        } else {
            AttributesPlace::Clone
        },
        exclude: if options.global {
            ExcludeAction::Leave
        } else if options.stash {
            ExcludeAction::Append
        } else {
            ExcludeAction::Remove
        },
        gitattributes: options.write_gitattributes,
    }
}

/// Plans an installation.
pub fn install_plan(options: &InstallOptions) -> (res: InstallPlan)
    ensures
        res == plan_of(*options),
{
    InstallPlan {
        global_config: options.global,
        attributes: if options.global {
            AttributesPlace::Machine
        } else {
            AttributesPlace::Clone
        },
        exclude: if options.global {
            ExcludeAction::Leave
        } else if options.stash {
            ExcludeAction::Append
        } else {
            ExcludeAction::Remove
        },
        gitattributes: options.write_gitattributes,
    }
}

/// What `uninstall` does.
#[derive(Debug, Clone, Copy, PartialEq, Eq, Structural)]
pub struct UninstallPlan {
    /// Whether the settings are those of the machine.
    pub global_config: bool,
    pub attributes: AttributesPlace,
    pub exclude: ExcludeAction,
    /// Whether there has to be a clone.
    pub needs_clone: bool,
    /// Whether it is said that the committed default stays.
    pub mention_default: bool,
}

/// What `uninstall` does: it takes back what `install` writes for the clone, or for
/// the machine; the committed default stays.
pub open spec fn uninstall_of(global: bool) -> UninstallPlan {
    UninstallPlan {
        global_config: global,
        attributes: if global {
            AttributesPlace::Machine
        } else {
            AttributesPlace::Clone
        },
        exclude: if global {
            ExcludeAction::Leave
        } else {
            ExcludeAction::Remove
        },
        needs_clone: !global,
        mention_default: !global,
    }
}

/// Plans the removal of an installation.
pub fn uninstall_plan(global: bool) -> (res: UninstallPlan)
    ensures
        res == uninstall_of(global),
{
    UninstallPlan {
        global_config: global,
        attributes: if global {
            AttributesPlace::Machine
        } else {
            AttributesPlace::Clone
        },
        exclude: if global {
            ExcludeAction::Leave
        } else {
            ExcludeAction::Remove
        },
        needs_clone: !global,
        mention_default: !global,
    }
}

/// The rule for one extension.
pub open spec fn rule(ext: Text, attributes: Text) -> Text {
    "*."@ + ext + " "@ + attributes
}

/// The rules for all extensions, one on a line.
pub open spec fn rules(attributes: Text) -> Text {
    text::join(all_extensions().map_values(|ext: Text| rule(ext, attributes)), "\n"@)
}

fn write_rules(attributes: &str) -> (res: String)
    ensures
        res@ == rules(attributes@),
{
    let list = extensions();
    let mut parts: Vec<String> = Vec::new();
    let mut i: usize = 0;
    while i < list.len()
        invariant
            i <= list.len(),
            text::strings_view(list@) == all_extensions(),
            parts.len() == i,
            forall|k: int| 0 <= k < i ==> (#[trigger] parts@[k])@ == rule(list@[k]@, attributes@),
        decreases list.len() - i,
    {
        let mut line = "*.".to_owned();
        line.append(list[i].as_str());
        line.append(" ");
        line.append(attributes);
        parts.push(line);
        i += 1;
    }
    proof {
        let view = text::strings_view(parts@);
        let wanted = all_extensions().map_values(|ext: Text| rule(ext, attributes@));
        assert(text::strings_view(list@).len() == list@.len());
        assert forall|k: int| 0 <= k < view.len() implies view[k] == wanted[k] by {
            assert(text::strings_view(list@)[k] == list@[k]@);
        }
        assert(view =~= wanted);
    }
    join_strings(&parts, "\n")
}

/// Some lines, each with its line feed.
pub open spec fn fed_lines(list: Seq<Text>) -> Text
    decreases list.len(),
{
    if list.len() == 0 {
        Seq::empty()
    } else {
        fed_lines(list.drop_last()) + list.last() + "\n"@
    }
}

fn write_lines(list: &Vec<String>) -> (res: String)
    ensures
        res@ == fed_lines(text::strings_view(list@)),
{
    let mut out = String::new();
    let ghost all = text::strings_view(list@);
    let mut i: usize = 0;
    assert(out@ =~= fed_lines(all.take(0)));
    while i < list.len()
        invariant
            i <= list.len(),
            all == text::strings_view(list@),
            out@ == fed_lines(all.take(i as int)),
        decreases list.len() - i,
    {
        out.append(list[i].as_str());
        out.append("\n");
        proof {
            let next = all.take(i + 1);
            assert(next.drop_last() =~= all.take(i as int));
            assert(next.last() == list@[i as int]@);
            assert(out@ =~= fed_lines(all.take(i as int)) + list@[i as int]@ + "\n"@);
        }
        i += 1;
    }
    assert(all.take(all.len() as int) =~= all);
    out
}

/// The comment on what switches the drivers on.
pub open spec fn attributes_comment() -> Seq<Text> {
    seq![
        "# Higher precedence than the committed .gitattributes; enables the"@,
        "# semantic diff and merge drivers for this clone."@,
    ]
}

/// What switches the drivers on.
pub open spec fn attributes_text() -> Text {
    fed_lines(attributes_comment()) + rules("merge=rbxdom diff=rbxdom"@)
}

/// Writes what switches the drivers on.
pub fn attributes_body() -> (res: String)
    ensures
        res@ == attributes_text(),
{
    let mut list: Vec<String> = Vec::new();
    list.push("# Higher precedence than the committed .gitattributes; enables the".to_owned());
    list.push("# semantic diff and merge drivers for this clone.".to_owned());
    assert(text::strings_view(list@) =~= attributes_comment());
    let mut out = write_lines(&list);
    out.append(write_rules("merge=rbxdom diff=rbxdom").as_str());
    out
}

/// The comment on the safe default.
pub open spec fn gitattributes_comment() -> Seq<Text> {
    seq![
        "# Safe default: a clone that has not run `rbx-merge install` treats these"@,
        "# as binary, so Git refuses to line-merge them (conflict + keep ours)"@,
        "# instead of silently corrupting structured Roblox files. `install`"@,
        "# writes a higher-precedence override into .git/info/attributes."@,
    ]
}

/// The safe default for clones that were not set up.
pub open spec fn gitattributes_text() -> Text {
    fed_lines(gitattributes_comment()) + rules("binary"@)
}

/// Writes the safe default for clones that were not set up.
pub fn gitattributes_body() -> (res: String)
    ensures
        res@ == gitattributes_text(),
{
    let mut list: Vec<String> = Vec::new();
    list.push(
        "# Safe default: a clone that has not run `rbx-merge install` treats these".to_owned(),
    );
    list.push("# as binary, so Git refuses to line-merge them (conflict + keep ours)".to_owned());
    list.push("# instead of silently corrupting structured Roblox files. `install`".to_owned());
    list.push("# writes a higher-precedence override into .git/info/attributes.".to_owned());
    assert(text::strings_view(list@) =~= gitattributes_comment());
    let mut out = write_lines(&list);
    out.append(write_rules("binary").as_str());
    out
}

// ---------------------------------------------------------------------------
// The managed block
// ---------------------------------------------------------------------------

/// Where the managed block of a file stands.
pub ghost enum Place {
    Nowhere,
    At(int, int),
    Unbalanced,
}

/// The managed block of a file: from its first line to its last one, with the line
/// feed behind it.
pub open spec fn block_place(s: Text) -> Place {
    match (scan::find(s, begin_marker(), 0), scan::find(s, end_marker(), 0)) {
        (None, None) => Place::Nowhere,
        (Some(start), Some(last)) => if last >= start {
            let end = last + end_marker().len();
            Place::At(
                start,
                if end < s.len() && s[end] == '\n' {
                    end + 1
                } else {
                    end
                },
            )
        } else {
            Place::Unbalanced
        },
        _ => Place::Unbalanced,
    }
}

/// Why a file with half a block is left alone.
pub open spec fn unbalanced_message() -> Text {
    "managed rbx-merge block markers are unbalanced — restore or delete the `"@ + begin_marker()
        + "` / `"@ + end_marker() + "` lines and re-run"@
}

fn unbalanced() -> (res: String)
    ensures
        res@ == unbalanced_message(),
{
    let mut out =
        "managed rbx-merge block markers are unbalanced — restore or delete the `".to_owned();
    out.append(begin_line());
    out.append("` / `");
    out.append(end_line());
    out.append("` lines and re-run");
    out
}

/// Finds the managed block.
fn find_block(s: &Vec<char>) -> (res: Result<Option<(usize, usize)>, String>)
    ensures
        match res {
            Ok(None) => block_place(s@) is Nowhere,
            Ok(Some((start, end))) => block_place(s@) == Place::At(start as int, end as int)
                && start <= end <= s.len(),
            Err(message) => block_place(s@) is Unbalanced && message@ == unbalanced_message(),
        },
{
    let _count: usize = s.len();
    let begin = chars_of(begin_line());
    let last = chars_of(end_line());
    match (find_from(s, &begin, 0), find_from(s, &last, 0)) {
        (None, None) => Ok(None),
        (Some(start), Some(at)) => {
            if at >= start {
                let mut end: usize = at + last.len();
                if end < s.len() && s[end] == '\n' {
                    end += 1;
                }
                Ok(Some((start, end)))
            } else {
                Err(unbalanced())
            }
        },
        _ => Err(unbalanced()),
    }
}

/// A block with its first and last line.
pub open spec fn managed_block(body: Text) -> Text {
    begin_marker() + "\n"@ + body + "\n"@ + end_marker() + "\n"@
}

/// A file with a block at its end, on lines of its own.
pub open spec fn with_block(s: Text, block: Text) -> Text {
    if s.len() == 0 {
        block
    } else if s.last() == '\n' {
        s + block
    } else {
        s + "\n"@ + block
    }
}

/// A file in which the managed block has that body: in the place of the one there
/// is, or at the end.
pub open spec fn upserted(s: Text, body: Text) -> Option<Text> {
    match block_place(s) {
        Place::Nowhere => Some(with_block(s, managed_block(body))),
        Place::At(start, end) => Some(s.take(start) + managed_block(body) + s.skip(end)),
        Place::Unbalanced => None,
    }
}

/// A file without the managed block.
pub open spec fn removed(s: Text) -> Option<Text> {
    match block_place(s) {
        Place::Nowhere => Some(s),
        Place::At(start, end) => Some(s.take(start) + s.skip(end)),
        Place::Unbalanced => None,
    }
}

/// Adds a block at the end of a file.
pub fn append_block(existing: &str, block: &str) -> (res: String)
    ensures
        res@ == with_block(existing@, block@),
{
    let chars = chars_of(existing);
    if chars.len() == 0 {
        return block.to_owned();
    }
    let mut out = existing.to_owned();
    if chars[chars.len() - 1] != '\n' {
        reveal_newline();
        out.append("\n");
    }
    out.append(block);
    out
}

fn reveal_newline()
    ensures
        "\n"@ == seq!['\n'],
{
    proof {
        reveal_strlit("\n");
        assert("\n"@ =~= seq!['\n']);
    }
}

fn write_block(body: &str) -> (res: String)
    ensures
        res@ == managed_block(body@),
{
    let mut out = begin_line().to_owned();
    out.append("\n");
    out.append(body);
    out.append("\n");
    out.append(end_line());
    out.append("\n");
    out
}

/// What becomes of a file.
pub open spec fn change_of(before: Text, after: Text) -> Option<Text> {
    if after == before {
        None
    } else {
        Some(after)
    }
}

/// Gives the managed block of a file a body. Returns the file where it changes, and
/// an error where half a block is in the way.
pub fn upsert_block(existing: &str, body: &str) -> (res: Result<Option<String>, String>)
    ensures
        match res {
            Ok(file) => upserted(existing@, body@) is Some && crate::diagnostics::option_text(file)
                == change_of(existing@, upserted(existing@, body@)->0),
            Err(message) => upserted(existing@, body@) is None && message@ == unbalanced_message(),
        },
{
    let chars = chars_of(existing);
    let block = write_block(body);
    let updated: String = match find_block(&chars) {
        Ok(None) => append_block(existing, block.as_str()),
        Ok(Some((start, end))) => {
            let mut out = string_of(&part(&chars, 0, start));
            out.append(block.as_str());
            out.append(string_of(&part(&chars, end, chars.len())).as_str());
            proof {
                assert(existing@.subrange(0, start as int) =~= existing@.take(start as int));
                assert(existing@.subrange(end as int, existing@.len() as int) =~= existing@.skip(
                    end as int,
                ));
            }
            out
        },
        Err(message) => {
            return Err(message);
        },
    };
    if same_text(updated.as_str(), existing) {
        Ok(None)
    } else {
        Ok(Some(updated))
    }
}

/// Takes the managed block out of a file. Returns the file where there was one.
pub fn remove_block(existing: &str) -> (res: Result<Option<String>, String>)
    ensures
        match res {
            Ok(file) => !(block_place(existing@) is Unbalanced)
                && crate::diagnostics::option_text(file) == (if block_place(existing@) is Nowhere {
                None
            } else {
                removed(existing@)
            }),
            Err(message) => block_place(existing@) is Unbalanced && message@
                == unbalanced_message(),
        },
{
    let chars = chars_of(existing);
    match find_block(&chars) {
        Ok(None) => Ok(None),
        Ok(Some((start, end))) => {
            let mut out = string_of(&part(&chars, 0, start));
            out.append(string_of(&part(&chars, end, chars.len())).as_str());
            proof {
                assert(existing@.subrange(0, start as int) =~= existing@.take(start as int));
                assert(existing@.subrange(end as int, existing@.len() as int) =~= existing@.skip(
                    end as int,
                ));
            }
            Ok(Some(out))
        },
        Err(message) => Err(message),
    }
}

/// Whether a file has a line, white space around it aside.
pub open spec fn has_line(s: Text, line: Text) -> bool {
    exists|i: int| 0 <= i < scan::lines(s).len() && scan::trim(#[trigger] scan::lines(s)[i]) == line
}

/// The first `n` lines of a list that are not a given line, each with a line feed.
pub open spec fn other_lines(list: Seq<Text>, line: Text, n: int) -> Text
    decreases n,
{
    if n <= 0 {
        Seq::empty()
    } else if scan::trim(list[n - 1]) == line {
        other_lines(list, line, n - 1)
    } else {
        other_lines(list, line, n - 1) + list[n - 1] + "\n"@
    }
}

/// A file without a line, white space around it aside.
pub open spec fn without_line(s: Text, line: Text) -> Text {
    other_lines(scan::lines(s), line, scan::lines(s).len() as int)
}

fn holds_line(list: &Vec<Vec<char>>, line: &str, Ghost(s): Ghost<Text>) -> (res: bool)
    requires
        scan::texts_view(list@) == scan::lines(s),
    ensures
        res == has_line(s, line@),
{
    let ghost all = scan::lines(s);
    assert(all.len() == list@.len());
    let mut i: usize = 0;
    while i < list.len()
        invariant
            i <= list.len(),
            all == scan::lines(s),
            all.len() == list@.len(),
            scan::texts_view(list@) == all,
            forall|k: int| 0 <= k < i ==> scan::trim(#[trigger] all[k]) != line@,
        decreases list.len() - i,
    {
        assert(all[i as int] == list@[i as int]@);
        if is_text(&trimmed(&list[i]), line) {
            return true;
        }
        i += 1;
    }
    false
}

/// Adds a line to a file that lacks it. Returns the file where it changes.
pub fn append_line_if_missing(existing: &str, line: &str) -> (res: Option<String>)
    ensures
        crate::diagnostics::option_text(res) == (if has_line(existing@, line@) {
            None
        } else {
            Some(with_block(existing@, line@ + "\n"@))
        }),
{
    let chars = chars_of(existing);
    let list = split_lines(&chars);
    if holds_line(&list, line, Ghost(existing@)) {
        return None;
    }
    let mut block = line.to_owned();
    block.append("\n");
    Some(append_block(existing, block.as_str()))
}

/// Takes a line out of a file that has it. Returns the file where it changes.
pub fn remove_line_if_present(existing: &str, line: &str) -> (res: Option<String>)
    ensures
        crate::diagnostics::option_text(res) == (if has_line(existing@, line@) {
            Some(without_line(existing@, line@))
        } else {
            None
        }),
{
    let chars = chars_of(existing);
    let list = split_lines(&chars);
    if !holds_line(&list, line, Ghost(existing@)) {
        return None;
    }
    let ghost all = scan::lines(existing@);
    assert(all.len() == list@.len());
    let mut out = String::new();
    let mut i: usize = 0;
    assert(out@ =~= other_lines(all, line@, 0));
    while i < list.len()
        invariant
            i <= list.len(),
            all.len() == list@.len(),
            scan::texts_view(list@) == all,
            out@ == other_lines(all, line@, i as int),
        decreases list.len() - i,
    {
        assert(all[i as int] == list@[i as int]@);
        if !is_text(&trimmed(&list[i]), line) {
            out.append(string_of(&list[i]).as_str());
            out.append("\n");
        }
        i += 1;
    }
    Some(out)
}

// ---------------------------------------------------------------------------
// Reading attributes
// ---------------------------------------------------------------------------

/// What the committed attributes say of an extension.
#[derive(Debug, Clone, Copy, PartialEq, Eq, Structural)]
pub enum ExtPosture {
    /// No rule names the extension.
    Unmentioned,
    /// It is not merged line by line.
    Safe,
    /// It is given to the driver, which a clone that was not set up lacks.
    Driver,
    /// It is given to another driver.
    Other,
}

/// What one attribute makes of an extension.
pub open spec fn posture_after(before: ExtPosture, attribute: Text) -> ExtPosture {
    if attribute == "binary"@ || attribute == "-merge"@ {
        ExtPosture::Safe
    } else if attribute == "merge=rbxdom"@ {
        ExtPosture::Driver
    } else if scan::matches_at(attribute, "merge="@, 0) {
        ExtPosture::Other
    } else {
        before
    }
}

/// What the first `n` words of a rule make of an extension; the first word is what
/// the rule is for.
pub open spec fn posture_words(before: ExtPosture, list: Seq<Text>, n: int) -> ExtPosture
    decreases n,
{
    if n <= 1 {
        before
    } else {
        posture_after(posture_words(before, list, n - 1), list[n - 1])
    }
}

/// What a line makes of an extension. A comment makes nothing of it.
pub open spec fn posture_line(before: ExtPosture, line: Text, ext: Text) -> ExtPosture {
    let line = scan::trim(line);
    let list = scan::words(line);
    if line.len() > 0 && line[0] == '#' {
        before
    } else if list.len() == 0 || list[0] != "*."@ + ext {
        before
    } else {
        posture_words(before, list, list.len() as int)
    }
}

/// What the first `n` lines make of an extension; the last rule wins.
pub open spec fn posture_lines(list: Seq<Text>, ext: Text, n: int) -> ExtPosture
    decreases n,
{
    if n <= 0 {
        ExtPosture::Unmentioned
    } else {
        posture_line(posture_lines(list, ext, n - 1), list[n - 1], ext)
    }
}

/// What attributes say of an extension.
pub open spec fn posture_of(contents: Text, ext: Text) -> ExtPosture {
    posture_lines(scan::lines(contents), ext, scan::lines(contents).len() as int)
}

fn read_rule(before: ExtPosture, line: &Vec<char>, pattern: &str) -> (res: ExtPosture)
    ensures
        forall|ext: Text| pattern@ == "*."@ + ext ==> res == #[trigger] posture_line(
            before,
            line@,
            ext,
        ),
{
    let line = trimmed(line);
    if line.len() > 0 && line[0] == '#' {
        return before;
    }
    let list = split_words(&line);
    let ghost all = scan::words(line@);
    assert(all.len() == list@.len());
    if list.len() == 0 {
        return before;
    }
    assert(all[0] == list@[0]@);
    if !is_text(&list[0], pattern) {
        return before;
    }
    let driver = chars_of("merge=");
    let mut state = before;
    let mut i: usize = 1;
    while i < list.len()
        invariant
            1 <= i <= list.len(),
            all.len() == list@.len(),
            scan::texts_view(list@) == all,
            driver@ == "merge="@,
            state == posture_words(before, all, i as int),
        decreases list.len() - i,
    {
        assert(all[i as int] == list@[i as int]@);
        if is_text(&list[i], "binary") || is_text(&list[i], "-merge") {
            state = ExtPosture::Safe;
        } else if is_text(&list[i], "merge=rbxdom") {
            state = ExtPosture::Driver;
        } else if stands_at(&list[i], &driver, 0) {
            state = ExtPosture::Other;
        }
        i += 1;
    }
    state
}

/// Reads what attributes say of an extension.
pub fn ext_posture(contents: &str, ext: &str) -> (res: ExtPosture)
    ensures
        res == posture_of(contents@, ext@),
{
    let mut pattern = "*.".to_owned();
    pattern.append(ext);
    let chars = chars_of(contents);
    let list = split_lines(&chars);
    let ghost all = scan::lines(contents@);
    assert(all.len() == list@.len());
    let mut state = ExtPosture::Unmentioned;
    let mut i: usize = 0;
    while i < list.len()
        invariant
            i <= list.len(),
            all.len() == list@.len(),
            scan::texts_view(list@) == all,
            pattern@ == "*."@ + ext@,
            state == posture_lines(all, ext@, i as int),
        decreases list.len() - i,
    {
        assert(all[i as int] == list@[i as int]@);
        let next = read_rule(state, &list[i], pattern.as_str());
        assert(next == posture_line(state, all[i as int], ext@));
        state = next;
        i += 1;
    }
    state
}

/// The last two fields of a line, with a colon and a space between fields.
pub open spec fn last_fields(line: Text) -> Option<(Text, Text)> {
    match scan::find_last(line, ": "@, line.len() as int) {
        None => None,
        Some(i) => {
            let head = line.take(i);
            let value = line.skip(i + ": "@.len());
            let field = match scan::find_last(head, ": "@, head.len() as int) {
                Some(j) => head.skip(j + ": "@.len()),
                None => head,
            };
            Some((field, value))
        },
    }
}

/// The value of the first of the first `n` lines that is about an attribute.
pub open spec fn value_in(list: Seq<Text>, attr: Text, n: int) -> Option<Text>
    decreases n,
{
    if n <= 0 {
        None
    } else {
        match value_in(list, attr, n - 1) {
            Some(value) => Some(value),
            None => match last_fields(list[n - 1]) {
                Some((field, value)) => if field == attr {
                    Some(value)
                } else {
                    None
                },
                None => None,
            },
        }
    }
}

fn read_fields(line: &Vec<char>) -> (res: Option<(Vec<char>, Vec<char>)>)
    ensures
        match res {
            Some((field, value)) => last_fields(line@) == Some((field@, value@)),
            None => last_fields(line@) is None,
        },
{
    let _count: usize = line.len();
    let colon = chars_of(": ");
    match find_back(line, &colon) {
        None => None,
        Some(i) => {
            let head = part(line, 0, i);
            let value = part(line, i + colon.len(), line.len());
            proof {
                assert(head@ =~= line@.take(i as int));
                assert(value@ =~= line@.skip(i + ": "@.len()));
            }
            let field = match find_back(&head, &colon) {
                Some(j) => {
                    let field = part(&head, j + colon.len(), head.len());
                    assert(field@ =~= head@.skip(j + ": "@.len()));
                    field
                },
                None => head,
            };
            Some((field, value))
        },
    }
}

/// Reads the value of an attribute in the output of `git check-attr`.
pub fn attr_value(output: &str, attr: &str) -> (res: Option<String>)
    ensures
        crate::diagnostics::option_text(res) == value_in(
            scan::lines(output@),
            attr@,
            scan::lines(output@).len() as int,
        ),
{
    let chars = chars_of(output);
    let list = split_lines(&chars);
    let ghost all = scan::lines(output@);
    assert(all.len() == list@.len());
    let mut i: usize = 0;
    while i < list.len()
        invariant
            i <= list.len(),
            all == scan::lines(output@),
            all.len() == list@.len(),
            scan::texts_view(list@) == all,
            value_in(all, attr@, i as int) is None,
        decreases list.len() - i,
    {
        assert(all[i as int] == list@[i as int]@);
        if let Some((field, value)) = read_fields(&list[i]) {
            if is_text(&field, attr) {
                proof {
                    lemma_value_found(all, attr@, i + 1, all.len() as int);
                }
                return Some(string_of(&value));
            }
        }
        i += 1;
    }
    None
}

proof fn lemma_value_found(list: Seq<Text>, attr: Text, n: int, m: int)
    requires
        n <= m,
        value_in(list, attr, n) is Some,
    ensures
        value_in(list, attr, m) == value_in(list, attr, n),
    decreases m,
{
    if n < m && m > 0 {
        lemma_value_found(list, attr, n, m - 1);
    }
}

// ---------------------------------------------------------------------------
// A look at a clone
// ---------------------------------------------------------------------------

/// How a check came out.
#[derive(Debug, Clone, Copy, PartialEq, Eq, Structural)]
pub enum Verdict {
    Good,
    Doubtful,
    Bad,
}

/// The line of a check.
pub open spec fn check_line(verdict: Verdict, message: Text) -> Text {
    match verdict {
        Verdict::Good => "[ ok ] "@ + message,
        Verdict::Doubtful => "[warn] "@ + message,
        Verdict::Bad => "[FAIL] "@ + message,
    }
}

/// The lines of checks, and whether one of them came out bad.
#[derive(Debug, Clone, PartialEq, Eq)]
pub struct Report {
    pub lines: Vec<String>,
    pub failed: bool,
}

/// The mathematical counterpart of [`Report`].
#[verifier::ext_equal]
pub ghost struct Checks {
    pub lines: Seq<Text>,
    pub failed: bool,
}

impl View for Report {
    type V = Checks;

    open spec fn view(&self) -> Checks {
        Checks { lines: text::strings_view(self.lines@), failed: self.failed }
    }
}

/// The checks with one more.
pub open spec fn with_check(before: Checks, verdict: Verdict, message: Text) -> Checks {
    Checks {
        lines: before.lines.push(check_line(verdict, message)),
        failed: before.failed || verdict is Bad,
    }
}

/// No checks yet.
pub open spec fn no_checks() -> Checks {
    Checks { lines: Seq::empty(), failed: false }
}

impl Report {
    pub fn new() -> (res: Self)
        ensures
            res@ == no_checks(),
    {
        let res = Report { lines: Vec::new(), failed: false };
        assert(res@ =~= no_checks());
        res
    }

    /// Adds a check.
    pub fn add_check(&mut self, verdict: Verdict, message: &str)
        ensures
            final(self)@ == with_check(old(self)@, verdict, message@),
    {
        let ghost before = self@;
        let mut line = match verdict {
            Verdict::Good => "[ ok ] ".to_owned(),
            Verdict::Doubtful => "[warn] ".to_owned(),
            Verdict::Bad => {
                self.failed = true;
                "[FAIL] ".to_owned()
            },
        };
        line.append(message);
        let ghost added = line@;
        self.lines.push(line);
        assert(text::strings_view(self.lines@) =~= before.lines.push(added));
        assert(self@ =~= with_check(before, verdict, message@));
    }
}

/// The program that the drivers run: the first word of the merge driver, or the
/// usual name.
pub open spec fn program_of(driver: Option<Text>) -> Text {
    match driver {
        Some(d) => match first_word(d) {
            Some(word) => word,
            None => "rbx-merge"@,
        },
        None => "rbx-merge"@,
    }
}

/// Tells the program that the drivers run.
pub fn driver_program(driver: Option<&str>) -> (res: String)
    ensures
        res@ == program_of(crate::format::path_view(driver)),
{
    if let Some(d) = driver {
        if let Some(word) = first_shell_word(d) {
            return word;
        }
    }
    "rbx-merge".to_owned()
}

/// Whether an extension is that of a text format, which would be merged line by
/// line.
pub open spec fn is_xml_extension(ext: Text) -> bool {
    ext == "rbxlx"@ || ext == "rbxmx"@
}

/// The check of an extension, by the merge attribute that its files have.
pub open spec fn extension_check(ext: Text, value: Option<Text>) -> (Verdict, Text) {
    match value {
        Some(v) => if v == "rbxdom"@ {
            (Verdict::Good, "semantic merge active for *."@ + ext)
        } else if v == "unset"@ {
            (
                Verdict::Doubtful,
                "*."@ + ext
                    + " falls back to binary (safe, but semantic merge inactive) — run `rbx-merge install`"@,
            )
        } else if v != "unspecified"@ {
            (
                Verdict::Bad,
                "*."@ + ext + " is assigned merge driver `"@ + v
                    + "`, not `rbxdom` — run `rbx-merge install`"@,
            )
        } else {
            unprotected_check(ext)
        },
        None => unprotected_check(ext),
    }
}

/// The check of an extension without a merge attribute.
pub open spec fn unprotected_check(ext: Text) -> (Verdict, Text) {
    if is_xml_extension(ext) {
        (
            Verdict::Bad,
            "*."@ + ext
                + " would be line-merged by Git (silent corruption risk) — run `rbx-merge install`"@,
        )
    } else {
        (
            Verdict::Bad,
            "*."@ + ext
                + " has no merge attribute — only Git's binary-content heuristic prevents a line merge — run `rbx-merge install`"@,
        )
    }
}

/// Checks an extension.
pub fn check_extension(ext: &str, value: Option<&str>) -> (res: (Verdict, String))
    ensures
        (res.0, res.1@) == extension_check(ext@, crate::format::path_view(value)),
{
    let mut message = String::new();
    if let Some(v) = value {
        if same_text(v, "rbxdom") {
            message.append("semantic merge active for *.");
            message.append(ext);
            assert(message@ =~= "semantic merge active for *."@ + ext@);
            return (Verdict::Good, message);
        }
        if same_text(v, "unset") {
            message.append("*.");
            message.append(ext);
            message.append(
                " falls back to binary (safe, but semantic merge inactive) — run `rbx-merge install`",
            );
            assert(message@ =~= extension_check(ext@, Some(v@)).1);
            return (Verdict::Doubtful, message);
        }
        if !same_text(v, "unspecified") {
            message.append("*.");
            message.append(ext);
            message.append(" is assigned merge driver `");
            message.append(v);
            message.append("`, not `rbxdom` — run `rbx-merge install`");
            assert(message@ =~= extension_check(ext@, Some(v@)).1);
            return (Verdict::Bad, message);
        }
    }
    message.append("*.");
    message.append(ext);
    if same_text(ext, "rbxlx") || same_text(ext, "rbxmx") {
        message.append(
            " would be line-merged by Git (silent corruption risk) — run `rbx-merge install`",
        );
    } else {
        message.append(
            " has no merge attribute — only Git's binary-content heuristic prevents a line merge — run `rbx-merge install`",
        );
    }
    assert(message@ =~= unprotected_check(ext@).1);
    (Verdict::Bad, message)
}

/// The patterns of the first `n` extensions that are not safe.
pub open spec fn unsafe_patterns(contents: Text, n: int) -> Seq<Text>
    decreases n,
{
    if n <= 0 {
        Seq::empty()
    } else {
        let so_far = unsafe_patterns(contents, n - 1);
        let ext = all_extensions()[n - 1];
        if posture_of(contents, ext) is Safe {
            so_far
        } else {
            so_far.push("*."@ + ext)
        }
    }
}

pub open spec fn some_posture(contents: Text, wanted: ExtPosture) -> bool {
    exists|i: int|
        0 <= i < all_extensions().len() && posture_of(contents, #[trigger] all_extensions()[i])
            == wanted
}

pub open spec fn all_posture(contents: Text, wanted: ExtPosture) -> bool {
    forall|i: int|
        0 <= i < all_extensions().len() ==> posture_of(contents, #[trigger] all_extensions()[i])
            == wanted
}

/// The check of the committed attributes.
pub open spec fn committed_check(contents: Text) -> (Verdict, Text) {
    if some_posture(contents, ExtPosture::Driver) {
        (
            Verdict::Doubtful,
            "committed .gitattributes names merge=rbxdom directly — collaborators who have not run `install` will silently line-merge; prefer the `binary` default"@,
        )
    } else if all_posture(contents, ExtPosture::Safe) {
        (
            Verdict::Good,
            "committed .gitattributes marks Roblox files `binary` (safe default)"@,
        )
    } else if all_posture(contents, ExtPosture::Unmentioned) {
        (
            Verdict::Doubtful,
            "no committed .gitattributes for Roblox files — run `rbx-merge install --write-gitattributes` and commit it"@,
        )
    } else {
        (
            Verdict::Doubtful,
            "committed .gitattributes leaves "@ + text::join(unsafe_patterns(contents, 4), ", "@)
                + " without a safe default — re-run `rbx-merge install --write-gitattributes`"@,
        )
    }
}

/// Checks the committed attributes.
pub fn check_committed_gitattributes(contents: &str) -> (res: (Verdict, String))
    ensures
        (res.0, res.1@) == committed_check(contents@),
{
    let list = extensions();
    let ghost all = all_extensions();
    let mut any_driver = false;
    let mut all_safe = true;
    let mut all_unmentioned = true;
    let mut patterns: Vec<String> = Vec::new();
    let mut i: usize = 0;
    assert(text::strings_view(list@).len() == list@.len());
    assert(text::strings_view(patterns@) =~= unsafe_patterns(contents@, 0));
    while i < list.len()
        invariant
            i <= list.len(),
            list@.len() == 4,
            all == all_extensions(),
            text::strings_view(list@) == all,
            any_driver == (exists|k: int|
                0 <= k < i && posture_of(contents@, #[trigger] all[k]) == ExtPosture::Driver),
            all_safe == (forall|k: int|
                0 <= k < i ==> posture_of(contents@, #[trigger] all[k]) == ExtPosture::Safe),
            all_unmentioned == (forall|k: int|
                0 <= k < i ==> posture_of(contents@, #[trigger] all[k])
                    == ExtPosture::Unmentioned),
            text::strings_view(patterns@) == unsafe_patterns(contents@, i as int),
        decreases list.len() - i,
    {
        let ghost before = text::strings_view(patterns@);
        assert(all[i as int] == list@[i as int]@);
        let posture = ext_posture(contents, list[i].as_str());
        if posture == ExtPosture::Driver {
            any_driver = true;
        }
        if posture != ExtPosture::Safe {
            all_safe = false;
            let mut pattern = "*.".to_owned();
            pattern.append(list[i].as_str());
            let ghost added = pattern@;
            patterns.push(pattern);
            assert(text::strings_view(patterns@) =~= before.push(added));
        }
        if posture != ExtPosture::Unmentioned {
            all_unmentioned = false;
        }
        i += 1;
    }
    if any_driver {
        (
            Verdict::Doubtful,
            "committed .gitattributes names merge=rbxdom directly — collaborators who have not run `install` will silently line-merge; prefer the `binary` default".to_owned(),
        )
    } else if all_safe {
        (
            Verdict::Good,
            "committed .gitattributes marks Roblox files `binary` (safe default)".to_owned(),
        )
    } else if all_unmentioned {
        (
            Verdict::Doubtful,
            "no committed .gitattributes for Roblox files — run `rbx-merge install --write-gitattributes` and commit it".to_owned(),
        )
    } else {
        let mut message = "committed .gitattributes leaves ".to_owned();
        message.append(join_strings(&patterns, ", ").as_str());
        message.append(
            " without a safe default — re-run `rbx-merge install --write-gitattributes`",
        );
        (Verdict::Doubtful, message)
    }
}

/// What was found out about a clone.
#[derive(Debug, Clone, PartialEq, Eq)]
pub struct Findings {
    /// The version that Git tells, where there is a Git.
    pub version: Option<String>,
    /// The directory of the repository, where there is one.
    pub git_dir: Option<String>,
    /// The merge driver, where one is configured.
    pub driver: Option<String>,
    /// Whether the program of the driver runs.
    pub runnable: bool,
    /// Whether a text converter is configured.
    pub textconv: bool,
    /// The merge attributes of the extensions.
    pub attributes: Vec<Option<String>>,
    /// The committed attributes, where there is a working tree.
    pub committed: Option<String>,
}

/// A version without the words in front of it.
pub open spec fn bare_version(s: Text) -> Text
    decreases s.len(),
{
    if "git version "@.len() > 0 && scan::matches_at(s, "git version "@, 0) {
        bare_version(s.skip("git version "@.len() as int))
    } else {
        s
    }
}

fn strip_version(version: &str) -> (res: String)
    ensures
        res@ == bare_version(version@),
{
    let words = chars_of("git version ");
    let chars = chars_of(version);
    proof {
        reveal_strlit("git version ");
    }
    let mut start: usize = 0;
    let _count: usize = chars.len();
    assert(chars@.skip(0) =~= chars@);
    while stands_at(&chars, &words, start)
        invariant
            start <= chars.len(),
            words@ == "git version "@,
            words@.len() > 0,
            bare_version(version@) == bare_version(chars@.skip(start as int)),
        decreases chars.len() - start,
    {
        proof {
            let rest = chars@.skip(start as int);
            assert(rest.subrange(0, words@.len() as int) =~= chars@.subrange(
                start as int,
                start + words@.len(),
            ));
            assert(rest.skip(words@.len() as int) =~= chars@.skip(start + words@.len()));
        }
        start += words.len();
    }
    proof {
        let rest = chars@.skip(start as int);
        if scan::matches_at(rest, words@, 0) {
            assert(rest.subrange(0, words@.len() as int) =~= chars@.subrange(
                start as int,
                start + words@.len(),
            ));
        }
        assert(chars@.subrange(start as int, chars@.len() as int) =~= rest);
    }
    string_of(&part(&chars, start, chars.len()))
}

/// The checks of the first `n` extensions.
pub open spec fn extension_checks(before: Checks, attributes: Seq<Option<String>>, n: int) -> Checks
    decreases n,
{
    if n <= 0 {
        before
    } else {
        let so_far = extension_checks(before, attributes, n - 1);
        let value = if n - 1 < attributes.len() {
            crate::diagnostics::option_text(attributes[n - 1])
        } else {
            None
        };
        let check = extension_check(all_extensions()[n - 1], value);
        with_check(so_far, check.0, check.1)
    }
}

/// The checks of a clone that has a repository.
pub open spec fn clone_checks(before: Checks, f: Findings) -> Checks {
    let driver = crate::diagnostics::option_text(f.driver);
    let program = program_of(driver);
    let a = if f.runnable {
        with_check(before, Verdict::Good, program + " executable found"@)
    } else {
        with_check(
            before,
            Verdict::Bad,
            program + " not runnable — install the binary or fix --driver-path"@,
        )
    };
    let b = if driver is Some {
        with_check(a, Verdict::Good, "merge driver configured (merge.rbxdom.driver)"@)
    } else {
        with_check(
            a,
            Verdict::Bad,
            "merge driver not configured — run `rbx-merge install`"@,
        )
    };
    let c = if f.textconv {
        with_check(b, Verdict::Good, "diff textconv configured (diff.rbxdom.textconv)"@)
    } else {
        with_check(
            b,
            Verdict::Doubtful,
            "diff textconv not configured — semantic diffs disabled"@,
        )
    };
    let d = extension_checks(c, f.attributes@, 4);
    match crate::diagnostics::option_text(f.committed) {
        Some(contents) => with_check(d, committed_check(contents).0, committed_check(contents).1),
        None => d,
    }
}

/// The checks of a clone. Without Git, or outside of a repository, the first bad
/// check is the last.
pub open spec fn all_checks(f: Findings) -> Checks {
    match crate::diagnostics::option_text(f.version) {
        None => with_check(no_checks(), Verdict::Bad, "git not found on PATH"@),
        Some(version) => {
            let first = with_check(no_checks(), Verdict::Good, bare_version(version));
            match crate::diagnostics::option_text(f.git_dir) {
                None => with_check(
                    first,
                    Verdict::Bad,
                    "not inside a Git repository — run this from your repo"@,
                ),
                Some(dir) => clone_checks(
                    with_check(
                        first,
                        Verdict::Good,
                        "inside Git repository ("@ + dir + ")"@,
                    ),
                    f,
                ),
            }
        },
    }
}

fn add_extension_checks(report: &mut Report, attributes: &Vec<Option<String>>)
    ensures
        final(report)@ == extension_checks(old(report)@, attributes@, 4),
{
    let ghost before = report@;
    let list = extensions();
    let ghost all = all_extensions();
    assert(text::strings_view(list@).len() == list@.len());
    let mut i: usize = 0;
    while i < list.len()
        invariant
            i <= list.len(),
            list@.len() == 4,
            all == all_extensions(),
            text::strings_view(list@) == all,
            report@ == extension_checks(before, attributes@, i as int),
        decreases list.len() - i,
    {
        assert(all[i as int] == list@[i as int]@);
        let mut value: Option<&str> = None;
        if i < attributes.len() {
            if let Some(v) = &attributes[i] {
                value = Some(v.as_str());
            }
        }
        let (verdict, message): (Verdict, String) = check_extension(list[i].as_str(), value);
        report.add_check(verdict, message.as_str());
        i += 1;
    }
}

fn add_clone_checks(report: &mut Report, findings: &Findings)
    ensures
        final(report)@ == clone_checks(old(report)@, *findings),
{
    let driver: Option<&str> = match &findings.driver {
        Some(d) => Some(d.as_str()),
        None => None,
    };
    let mut message = driver_program(driver);
    if findings.runnable {
        message.append(" executable found");
        report.add_check(Verdict::Good, message.as_str());
    } else {
        message.append(" not runnable — install the binary or fix --driver-path");
        report.add_check(Verdict::Bad, message.as_str());
    }
    if driver.is_some() {
        report.add_check(Verdict::Good, "merge driver configured (merge.rbxdom.driver)");
    } else {
        report.add_check(
            Verdict::Bad,
            "merge driver not configured — run `rbx-merge install`",
        );
    }
    if findings.textconv {
        report.add_check(Verdict::Good, "diff textconv configured (diff.rbxdom.textconv)");
    } else {
        report.add_check(
            Verdict::Doubtful,
            "diff textconv not configured — semantic diffs disabled",
        );
    }
    add_extension_checks(report, &findings.attributes);
    if let Some(contents) = &findings.committed {
        let (verdict, message): (Verdict, String) = check_committed_gitattributes(
            contents.as_str(),
        );
        report.add_check(verdict, message.as_str());
    }
}

/// Judges what was found out about a clone.
pub fn examine(findings: &Findings) -> (res: Report)
    ensures
        res@ == all_checks(*findings),
{
    let mut report = Report::new();
    let version: String = match &findings.version {
        Some(version) => strip_version(version.as_str()),
        None => {
            report.add_check(Verdict::Bad, "git not found on PATH");
            return report;
        },
    };
    report.add_check(Verdict::Good, version.as_str());
    match &findings.git_dir {
        Some(dir) => {
            let mut message = "inside Git repository (".to_owned();
            message.append(dir.as_str());
            message.append(")");
            report.add_check(Verdict::Good, message.as_str());
            add_clone_checks(&mut report, findings);
        },
        None => {
            report.add_check(
                Verdict::Bad,
                "not inside a Git repository — run this from your repo",
            );
        },
    }
    report
}

} // verus!
