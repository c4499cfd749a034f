//! What holds of the command lines and of the managed block.

use vstd::prelude::*;

use crate::scan;
use crate::setup;
use crate::setup::Place;
use crate::text;
use crate::text::Text;

verus! {

// ---------------------------------------------------------------------------
// Command lines
// ---------------------------------------------------------------------------

/// Whether a word ends in front of a text.
pub open spec fn ends_a_word(rest: Text) -> bool {
    rest.len() == 0 || scan::is_space(rest[0])
}

proof fn lemma_plain_word(path: Text, rest: Text)
    requires
        forall|i: int| 0 <= i < path.len() ==> setup::is_plain(#[trigger] path[i]),
        ends_a_word(rest),
    ensures
        setup::shell_word(path + rest, None) == path,
    decreases path.len(),
{
    if path.len() == 0 {
        assert(path + rest =~= rest);
    } else {
        let tail = path.drop_first();
        assert forall|i: int| 0 <= i < tail.len() implies setup::is_plain(#[trigger] tail[i]) by {
            assert(tail[i] == path[i + 1]);
        }
        lemma_plain_word(tail, rest);
        assert((path + rest).drop_first() =~= tail + rest);
        assert((path + rest)[0] == path[0]);
        assert(setup::is_plain(path[0]));
        assert(seq![path[0]] + tail =~= path);
    }
}

proof fn lemma_escaped_word(path: Text, rest: Text)
    ensures
        setup::shell_word(setup::escaped(path) + rest, Some('\'')) == path + setup::shell_word(
            rest,
            Some('\''),
        ),
    decreases path.len(),
{
    if path.len() == 0 {
        assert(setup::escaped(path) + rest =~= rest);
        assert(path + setup::shell_word(rest, Some('\'')) =~= setup::shell_word(rest, Some('\'')));
    } else {
        let head = path.drop_last();
        let c = path.last();
        let after = setup::shell_word(rest, Some('\''));
        if c == '\'' {
            let mark = seq!['\'', '\\', '\'', '\''];
            let next = mark + rest;
            lemma_escaped_word(head, next);
            assert(setup::escaped(path) + rest =~= setup::escaped(head) + next);
            let n1 = next.drop_first();
            assert(next[0] == '\'');
            assert(n1 =~= seq!['\\', '\'', '\''] + rest);
            let n2 = n1.drop_first();
            assert(n2 =~= seq!['\'', '\''] + rest);
            let n3 = n2.drop_first();
            assert(n3 =~= seq!['\''] + rest);
            assert(n3.drop_first() =~= rest);
            assert(setup::shell_word(n3, None) == after);
            assert(setup::shell_word(n1, None) == seq!['\''] + after);
            assert(setup::shell_word(next, Some('\'')) == seq!['\''] + after);
        } else {
            let next = seq![c] + rest;
            lemma_escaped_word(head, next);
            assert(setup::escaped(path) + rest =~= setup::escaped(head) + next);
            assert(next.drop_first() =~= rest);
            assert(setup::shell_word(next, Some('\'')) == seq![c] + after);
        }
        assert(head + (seq![c] + after) =~= path + after);
    }
}

/// The first word of a command line that starts with a quoted path is the path.
pub proof fn law_quoting_round_trips(path: Text, rest: Text)
    requires
        path.len() > 0,
        ends_a_word(rest),
    ensures
        setup::first_word(setup::quoted_path(path) + rest) == Some(path),
{
    let command = setup::quoted_path(path) + rest;
    if setup::is_plain_path(path) {
        assert(setup::is_plain(path[0]));
        assert(command[0] == path[0]);
        lemma_plain_word(path, rest);
    } else {
        assert(command[0] == '\'');
        let next = seq!['\''] + rest;
        assert(command.drop_first() =~= setup::escaped(path) + next);
        lemma_escaped_word(path, next);
        assert(next.drop_first() =~= rest);
        assert(setup::shell_word(next, Some('\'')) == setup::shell_word(rest, None));
        assert(path + Seq::<char>::empty() =~= path);
    }
}

/// The program that is read back from a merge driver is the one it was made for.
pub proof fn law_driver_names_its_program(path: Text, stash: bool)
    requires
        path.len() > 0,
    ensures
        setup::program_of(Some(setup::driver_command(path, stash))) == path,
{
    reveal_strlit(" merge --base %O --ours %A --theirs %B --out %A --path %P");
    reveal_strlit(" --stash-dir .rbxmerge/%P");
    let a = " merge --base %O --ours %A --theirs %B --out %A --path %P"@;
    let b = " --stash-dir .rbxmerge/%P"@;
    assert(setup::quoted_path(path) + a + b =~= setup::quoted_path(path) + (a + b));
    law_quoting_round_trips(path, a);
    law_quoting_round_trips(path, a + b);
}

// ---------------------------------------------------------------------------
// The managed block
// ---------------------------------------------------------------------------

/// Whether a text holds neither line that a managed block is marked with.
pub open spec fn unmarked(body: Text) -> bool {
    forall|i: int|
        !scan::matches_at(body, setup::begin_marker(), i) && !#[trigger] scan::matches_at(
            body,
            setup::end_marker(),
            i,
        )
}

proof fn lemma_markers()
    ensures
        0 < setup::end_marker().len() < setup::begin_marker().len(),
        forall|i: int|
            0 <= i < setup::begin_marker().len() ==> #[trigger] setup::begin_marker()[i] != '\n',
        forall|i: int|
            0 <= i < setup::end_marker().len() ==> #[trigger] setup::end_marker()[i] != '\n',
        forall|i: int| !#[trigger] scan::matches_at(setup::begin_marker(), setup::end_marker(), i),
        "\n"@ == seq!['\n'],
{
    reveal(setup::begin_marker);
    reveal(setup::end_marker);
    let b = setup::begin_marker();
    let e = setup::end_marker();
    reveal_strlit(
        "# BEGIN rbx-merge (managed) — edit install flags and re-run, or delete to uninstall",
    );
    reveal_strlit("# END rbx-merge");
    reveal_strlit("\n");
    assert("\n"@ =~= seq!['\n']);
    assert(forall|i: int| 0 < i < b.len() ==> #[trigger] b[i] != '#');
    assert forall|i: int| !#[trigger] scan::matches_at(b, e, i) by {
        if scan::matches_at(b, e, i) {
            let t = b.subrange(i, i + e.len());
            assert(t[0] == b[i] && t[2] == b[i + 2]);
            assert(e[0] == '#' && e[2] == 'E');
            assert(i == 0);
            assert(b[2] == 'B');
        }
    }
}

/// A pattern without a line feed stands on one side of a line feed.
pub proof fn lemma_no_straddle(a: Text, b: Text, pat: Text, i: int)
    requires
        a.len() == 0 || a.last() == '\n',
        forall|k: int| 0 <= k < pat.len() ==> #[trigger] pat[k] != '\n',
        scan::matches_at(a + b, pat, i),
    ensures
        i >= a.len() ==> scan::matches_at(b, pat, i - a.len()),
        i < a.len() ==> scan::matches_at(a, pat, i),
{
    let s = a + b;
    let t = s.subrange(i, i + pat.len());
    if i >= a.len() {
        assert(b.subrange(i - a.len(), i - a.len() + pat.len()) =~= t);
    } else {
        if i + pat.len() > a.len() {
            assert(t[a.len() - 1 - i] == s[a.len() - 1]);
            assert(s[a.len() - 1] == a.last());
        }
        assert(a.subrange(i, i + pat.len()) =~= t);
    }
}

/// A pattern without a line feed that stands in a line stands before its line feed.
pub proof fn lemma_in_line(a: Text, pat: Text, i: int)
    requires
        pat.len() > 0,
        forall|k: int| 0 <= k < pat.len() ==> #[trigger] pat[k] != '\n',
        scan::matches_at(a + seq!['\n'], pat, i),
    ensures
        scan::matches_at(a, pat, i),
{
    let s = a + seq!['\n'];
    let t = s.subrange(i, i + pat.len());
    if i + pat.len() > a.len() {
        assert(t[a.len() - i] == s[a.len() as int]);
    }
    assert(a.subrange(i, i + pat.len()) =~= t);
}

/// Where the last line of a block starts.
spec fn last_line_at(body: Text) -> int {
    (setup::begin_marker().len() + 1 + body.len() + 1) as int
}

/// In a block the first line stands at its start and the last line at its end, and
/// neither anywhere before.
proof fn lemma_block(body: Text)
    requires
        unmarked(body),
    ensures
        ({
            let block = setup::managed_block(body);
            let at = last_line_at(body);
            &&& block.len() == at + setup::end_marker().len() + 1
            &&& block[block.len() - 1] == '\n'
            &&& scan::matches_at(block, setup::begin_marker(), 0)
            &&& scan::matches_at(block, setup::end_marker(), at)
            &&& forall|i: int|
                0 <= i < at ==> !#[trigger] scan::matches_at(block, setup::end_marker(), i)
        }),
{
    lemma_markers();
    let b = setup::begin_marker();
    let e = setup::end_marker();
    let nl = seq!['\n'];
    let block = setup::managed_block(body);
    let first = b + nl;
    let middle = body + nl;
    let last = e + nl;
    let at = last_line_at(body);
    assert(block =~= first + (middle + last));
    assert(block.subrange(0, b.len() as int) =~= b);
    assert(block.subrange(at, at + e.len()) =~= e);
    assert forall|i: int| 0 <= i < at implies !#[trigger] scan::matches_at(block, e, i) by {
        if scan::matches_at(block, e, i) {
            lemma_no_straddle(first, middle + last, e, i);
            if i < first.len() {
                lemma_in_line(b, e, i);
            } else {
                let j = i - first.len();
                lemma_no_straddle(middle, last, e, j);
                if j < middle.len() {
                    lemma_in_line(body, e, j);
                    assert(scan::matches_at(body, e, j));
                }
            }
        }
    }
}

/// Whether a pattern stands nowhere in a text, nor on the border to a block behind
/// it.
spec fn free_of(pre: Text, pat: Text) -> bool {
    forall|i: int|
        0 <= i < pre.len() ==> !#[trigger] scan::matches_at(pre + setup::begin_marker(), pat, i)
}

/// Whether a block that starts behind a text is the first one.
spec fn opens_here(pre: Text) -> bool {
    free_of(pre, setup::begin_marker()) && free_of(pre, setup::end_marker())
}

/// A match in a longer text, seen in a shorter one that agrees with it.
proof fn lemma_shorter_match(s: Text, t: Text, pat: Text, i: int)
    requires
        scan::matches_at(s, pat, i),
        i + pat.len() <= t.len() <= s.len(),
        t == s.take(t.len() as int),
    ensures
        scan::matches_at(t, pat, i),
{
    assert(t.subrange(i, i + pat.len()) =~= s.subrange(i, i + pat.len()));
}

/// A block between two texts is found where it stands.
proof fn lemma_block_found(pre: Text, body: Text, post: Text)
    requires
        opens_here(pre),
        unmarked(body),
    ensures
        setup::block_place(pre + setup::managed_block(body) + post) == Place::At(
            pre.len() as int,
            (pre.len() + setup::managed_block(body).len()) as int,
        ),
{
    let b = setup::begin_marker();
    let e = setup::end_marker();
    let block = setup::managed_block(body);
    let s = pre + block + post;
    let n = pre.len() as int;
    let at = last_line_at(body);
    lemma_markers();
    lemma_block(body);
    let opening = pre + b;
    assert(opening =~= s.take(opening.len() as int)) by {
        assert forall|k: int| 0 <= k < opening.len() implies opening[k] == s[k] by {
            if k >= n {
                assert(block.subrange(0, b.len() as int)[k - n] == block[k - n]);
            }
        }
    }
    assert(scan::matches_at(s, b, n)) by {
        assert(s.subrange(n, n + b.len()) =~= block.subrange(0, b.len() as int));
    }
    assert forall|j: int| 0 <= j < n implies !#[trigger] scan::matches_at(s, b, j) by {
        if scan::matches_at(s, b, j) {
            lemma_shorter_match(s, opening, b, j);
        }
    }
    scan::lemma_find_is(s, b, 0, n);
    assert(scan::matches_at(s, e, n + at)) by {
        assert(s.subrange(n + at, n + at + e.len()) =~= block.subrange(at, at + e.len()));
    }
    assert forall|j: int| 0 <= j < n + at implies !#[trigger] scan::matches_at(s, e, j) by {
        if scan::matches_at(s, e, j) {
            if j < n {
                lemma_shorter_match(s, opening, e, j);
            } else {
                assert(block.subrange(j - n, j - n + e.len()) =~= s.subrange(j, j + e.len()));
                assert(scan::matches_at(block, e, j - n));
            }
        }
    }
    scan::lemma_find_is(s, e, 0, n + at);
    assert(s[n + block.len() - 1] == block[block.len() - 1]);
}

/// A pattern that is first found behind a place is free before it.
proof fn lemma_free_before(s: Text, start: int, pat: Text)
    requires
        scan::matches_at(s, setup::begin_marker(), start),
        pat.len() <= setup::begin_marker().len(),
        forall|j: int| 0 <= j < start ==> !#[trigger] scan::matches_at(s, pat, j),
    ensures
        free_of(s.take(start), pat),
{
    let b = setup::begin_marker();
    let pre = s.take(start);
    let opening = pre + b;
    assert(opening =~= s.take(opening.len() as int)) by {
        assert forall|k: int| 0 <= k < opening.len() implies opening[k] == s[k] by {
            if k >= start {
                assert(s.subrange(start, start + b.len())[k - start] == s[k]);
            }
        }
    }
    assert forall|i: int| 0 <= i < pre.len() implies !#[trigger] scan::matches_at(
        opening,
        pat,
        i,
    ) by {
        if scan::matches_at(opening, pat, i) {
            assert(s.subrange(i, i + pat.len()) =~= opening.subrange(i, i + pat.len()));
            assert(scan::matches_at(s, pat, i));
        }
    }
}

/// What a file with a managed block is made of.
proof fn lemma_parts(s: Text)
    requires
        setup::block_place(s) is At,
    ensures
        ({
            let start = setup::block_place(s)->At_0;
            let end = setup::block_place(s)->At_1;
            &&& 0 <= start <= end <= s.len()
            &&& opens_here(s.take(start))
        }),
{
    lemma_markers();
    scan::lemma_find(s, setup::begin_marker(), 0);
    scan::lemma_find(s, setup::end_marker(), 0);
    let start = setup::block_place(s)->At_0;
    lemma_free_before(s, start, setup::begin_marker());
    lemma_free_before(s, start, setup::end_marker());
}

/// A file without a managed block, up to the line feed that one is put behind.
pub open spec fn closed_off(s: Text) -> Text {
    if s.len() == 0 || s.last() == '\n' {
        s
    } else {
        s + "\n"@
    }
}

proof fn lemma_closed_off(s: Text, body: Text)
    requires
        setup::block_place(s) is Nowhere,
    ensures
        setup::with_block(s, setup::managed_block(body)) == closed_off(s) + setup::managed_block(
            body,
        ) + Seq::<char>::empty(),
        opens_here(closed_off(s)),
{
    let b = setup::begin_marker();
    let e = setup::end_marker();
    let pre = closed_off(s);
    let block = setup::managed_block(body);
    lemma_markers();
    scan::lemma_find(s, b, 0);
    scan::lemma_find(s, e, 0);
    assert(setup::with_block(s, block) =~= pre + block + Seq::<char>::empty());
    lemma_free_closed_off(s, b);
    lemma_free_closed_off(s, e);
}

proof fn lemma_free_closed_off(s: Text, pat: Text)
    requires
        pat.len() > 0,
        forall|k: int| 0 <= k < pat.len() ==> #[trigger] pat[k] != '\n',
        forall|j: int| 0 <= j ==> !#[trigger] scan::matches_at(s, pat, j),
    ensures
        free_of(closed_off(s), pat),
{
    lemma_markers();
    let b = setup::begin_marker();
    let pre = closed_off(s);
    assert forall|i: int| 0 <= i < pre.len() implies !#[trigger] scan::matches_at(
        pre + b,
        pat,
        i,
    ) by {
        if scan::matches_at(pre + b, pat, i) {
            lemma_no_straddle(pre, b, pat, i);
            if pre != s {
                lemma_in_line(s, pat, i);
            }
            assert(scan::matches_at(s, pat, i));
        }
    }
}

/// A file that a block was put into is the text before, the block, and the text
/// behind.
proof fn lemma_upserted_parts(s: Text, body: Text) -> (parts: (Text, Text))
    requires
        setup::upserted(s, body) is Some,
    ensures
        opens_here(parts.0),
        forall|other: Text| #[trigger]
            setup::upserted(s, other) == Some(
                parts.0 + setup::managed_block(other) + parts.1,
            ),
        setup::block_place(s) is Nowhere ==> parts == (closed_off(s), Seq::<char>::empty()),
        setup::block_place(s) is At ==> parts.0 + parts.1 == setup::removed(s)->0,
{
    match setup::block_place(s) {
        Place::Nowhere => {
            let parts = (closed_off(s), Seq::<char>::empty());
            lemma_closed_off(s, body);
            assert forall|other: Text| #[trigger]
                setup::upserted(s, other) == Some(
                    parts.0 + setup::managed_block(other) + parts.1,
                ) by {
                lemma_closed_off(s, other);
            }
            parts
        },
        Place::At(start, end) => {
            lemma_parts(s);
            (s.take(start), s.skip(end))
        },
        Place::Unbalanced => (s, s),
    }
}

/// Putting a block into a file again replaces the block and nothing else.
pub proof fn law_upsert_replaces_only_the_block(s: Text, first: Text, second: Text)
    requires
        unmarked(first),
        setup::upserted(s, first) is Some,
    ensures
        setup::upserted(setup::upserted(s, first)->0, second) == setup::upserted(s, second),
{
    let parts = lemma_upserted_parts(s, first);
    let block = setup::managed_block(first);
    let u = parts.0 + block + parts.1;
    assert(setup::upserted(s, first) == Some(u));
    lemma_block_found(parts.0, first, parts.1);
    assert(u.take(parts.0.len() as int) =~= parts.0);
    assert(u.skip((parts.0.len() + block.len()) as int) =~= parts.1);
    assert(setup::upserted(s, second) == Some(
        parts.0 + setup::managed_block(second) + parts.1,
    ));
}

/// Putting the same block into a file again changes nothing.
pub proof fn law_upsert_is_idempotent(s: Text, body: Text)
    requires
        unmarked(body),
        setup::upserted(s, body) is Some,
    ensures
        setup::upserted(setup::upserted(s, body)->0, body) == setup::upserted(s, body),
{
    law_upsert_replaces_only_the_block(s, body, body);
}

/// Taking the block out again gives back the file without a block: as it was, but
/// for a line feed at the end of a last line that lacked one.
pub proof fn law_remove_undoes_upsert(s: Text, body: Text)
    requires
        unmarked(body),
        setup::upserted(s, body) is Some,
    ensures
        setup::removed(setup::upserted(s, body)->0) == Some(
            if setup::block_place(s) is Nowhere {
                closed_off(s)
            } else {
                setup::removed(s)->0
            },
        ),
{
    let parts = lemma_upserted_parts(s, body);
    let block = setup::managed_block(body);
    let u = parts.0 + block + parts.1;
    assert(setup::upserted(s, body) == Some(u));
    lemma_block_found(parts.0, body, parts.1);
    assert(u.take(parts.0.len() as int) =~= parts.0);
    assert(u.skip((parts.0.len() + block.len()) as int) =~= parts.1);
    assert(parts.0 + Seq::<char>::empty() =~= parts.0);
}

// ---------------------------------------------------------------------------
// Lines
// ---------------------------------------------------------------------------

/// Whether a text is one line.
pub open spec fn is_one_line(s: Text) -> bool {
    forall|i: int| 0 <= i < s.len() ==> #[trigger] s[i] != '\n'
}

proof fn lemma_feed_at(s: Text, i: int)
    requires
        0 <= i < s.len(),
    ensures
        scan::matches_at(s, seq!['\n'], i) <==> s[i] == '\n',
{
    let t = s.subrange(i, i + 1);
    assert(t[0] == s[i]);
    if s[i] == '\n' {
        assert(t =~= seq!['\n']);
    }
}

/// Where the first line of a text ends.
proof fn lemma_first_feed(s: Text, i: int)
    requires
        0 <= i < s.len(),
        s[i] == '\n',
        forall|j: int| 0 <= j < i ==> #[trigger] s[j] != '\n',
    ensures
        scan::find(s, seq!['\n'], 0) == Some(i),
{
    lemma_feed_at(s, i);
    assert forall|j: int| 0 <= j < i implies !#[trigger] scan::matches_at(s, seq!['\n'], j) by {
        lemma_feed_at(s, j);
        assert(s[j] != '\n');
    }
    scan::lemma_find_is(s, seq!['\n'], 0, i);
}

/// The first line feed of a text that has one.
proof fn lemma_some_feed(s: Text, k: int) -> (i: int)
    requires
        0 <= k < s.len(),
        s[k] == '\n',
    ensures
        0 <= i <= k,
        s[i] == '\n',
        forall|j: int| 0 <= j < i ==> #[trigger] s[j] != '\n',
        scan::find(s, seq!['\n'], 0) == Some(i),
    decreases k,
{
    if exists|j: int| 0 <= j < k && #[trigger] s[j] == '\n' {
        let j = choose|j: int| 0 <= j < k && #[trigger] s[j] == '\n';
        lemma_some_feed(s, j)
    } else {
        lemma_first_feed(s, k);
        k
    }
}

/// The lines of two texts, the first of which ends with a line feed.
pub proof fn lemma_lines_concat(a: Text, b: Text)
    requires
        a.len() == 0 || a.last() == '\n',
    ensures
        scan::lines(a + b) == scan::lines(a) + scan::lines(b),
    decreases a.len(),
{
    if a.len() == 0 {
        assert(a + b =~= b);
        assert(scan::lines(a) + scan::lines(b) =~= scan::lines(b));
    } else {
        let s = a + b;
        let i = lemma_some_feed(a, a.len() - 1);
        assert forall|j: int| 0 <= j < i implies #[trigger] s[j] != '\n' by {
            assert(s[j] == a[j]);
        }
        lemma_first_feed(s, i);
        let rest = a.skip(i + 1);
        assert(s.skip(i + 1) =~= rest + b);
        assert(s.take(i) =~= a.take(i));
        if rest.len() > 0 {
            assert(rest.last() == a.last());
        }
        lemma_lines_concat(rest, b);
        let first = seq![scan::without_return(a.take(i))];
        assert(first + (scan::lines(rest) + scan::lines(b)) =~= (first + scan::lines(rest))
            + scan::lines(b));
    }
}

/// The lines of one line with its line feed.
pub proof fn lemma_one_line(line: Text)
    requires
        is_one_line(line),
    ensures
        scan::lines(line + seq!['\n']) == seq![scan::without_return(line)],
{
    let s = line + seq!['\n'];
    let n = line.len() as int;
    assert forall|j: int| 0 <= j < n implies #[trigger] s[j] != '\n' by {
        assert(s[j] == line[j]);
    }
    lemma_first_feed(s, n);
    assert(s.take(n) =~= line);
    assert(s.skip(n + 1) =~= Seq::<char>::empty());
    assert(scan::lines(Seq::<char>::empty()) =~= Seq::<Text>::empty());
    assert(seq![scan::without_return(line)] + Seq::<Text>::empty() =~= seq![
        scan::without_return(line),
    ]);
}

/// A carriage return at the end is white space.
pub proof fn lemma_trim_without_return(s: Text)
    ensures
        scan::trim(scan::without_return(s)) == scan::trim(s),
    decreases s.len(),
{
    if s.len() > 0 && s.last() == '\r' {
        let t = s.drop_last();
        if scan::is_space(s[0]) {
            if s.len() == 1 {
                assert(s.drop_first() =~= Seq::<char>::empty());
                assert(t =~= Seq::<char>::empty());
            } else {
                let rest = s.drop_first();
                assert(rest.last() == '\r');
                assert(rest.drop_last() =~= t.drop_first());
                assert(t[0] == s[0]);
                lemma_trim_without_return(rest);
            }
        } else {
            assert(s.len() > 1);
            assert(t[0] == s[0]);
            assert(scan::trim_start(s) == s);
            assert(scan::trim_start(t) == t);
        }
    }
}

/// A line that was added is there, so that adding it again changes nothing.
pub proof fn law_appended_line_is_there(s: Text, line: Text)
    requires
        is_one_line(line),
        scan::trim(line) == line,
    ensures
        setup::has_line(setup::with_block(s, line + "\n"@), line),
{
    reveal_strlit("\n");
    assert("\n"@ =~= seq!['\n']);
    let pre = closed_off(s);
    let block = line + seq!['\n'];
    let u = setup::with_block(s, line + "\n"@);
    assert(u =~= pre + block);
    lemma_lines_concat(pre, block);
    lemma_one_line(line);
    lemma_trim_without_return(line);
    let n = scan::lines(pre).len() as int;
    assert(scan::lines(u)[n] == scan::without_return(line));
    assert(scan::trim(scan::lines(u)[n]) == line);
}

/// The lines of a text are lines.
proof fn lemma_lines_are_lines(s: Text, k: int)
    requires
        0 <= k < scan::lines(s).len(),
    ensures
        is_one_line(scan::lines(s)[k]),
    decreases s.len(),
{
    if exists|j: int| 0 <= j < s.len() && #[trigger] s[j] == '\n' {
        let j = choose|j: int| 0 <= j < s.len() && #[trigger] s[j] == '\n';
        let i = lemma_some_feed(s, j);
        let rest = s.skip(i + 1);
        if k == 0 {
            let line = s.take(i);
            assert forall|m: int| 0 <= m < line.len() implies #[trigger] line[m] != '\n' by {
                assert(line[m] == s[m]);
            }
            assert forall|m: int|
                0 <= m < scan::without_return(line).len() implies #[trigger] scan::without_return(
                line,
            )[m] != '\n' by {
                assert(scan::without_return(line)[m] == line[m]);
            }
        } else {
            lemma_lines_are_lines(rest, k - 1);
            assert(scan::lines(s)[k] == scan::lines(rest)[k - 1]);
        }
    } else {
        assert forall|j: int| 0 <= j implies !#[trigger] scan::matches_at(s, seq!['\n'], j) by {
            if scan::matches_at(s, seq!['\n'], j) {
                lemma_feed_at(s, j);
                assert(s[j] == '\n');
            }
        }
        scan::lemma_find_none(s, seq!['\n'], 0);
    }
}

/// None of the lines that are left is the line.
proof fn lemma_other_lines(list: Seq<Text>, line: Text, n: int)
    requires
        0 <= n <= list.len(),
        forall|k: int| 0 <= k < list.len() ==> is_one_line(#[trigger] list[k]),
    ensures
        ({
            let left = setup::other_lines(list, line, n);
            &&& left.len() == 0 || left.last() == '\n'
            &&& !setup::has_line(left, line)
        }),
    decreases n,
{
    reveal_strlit("\n");
    assert("\n"@ =~= seq!['\n']);
    let left = setup::other_lines(list, line, n);
    if n > 0 {
        let before = setup::other_lines(list, line, n - 1);
        lemma_other_lines(list, line, n - 1);
        if scan::trim(list[n - 1]) != line {
            let more = list[n - 1] + seq!['\n'];
            assert(left =~= before + more);
            lemma_lines_concat(before, more);
            lemma_one_line(list[n - 1]);
            lemma_trim_without_return(list[n - 1]);
            let all = scan::lines(left);
            assert forall|i: int| 0 <= i < all.len() implies scan::trim(#[trigger] all[i])
                != line by {
                if i < scan::lines(before).len() {
                    assert(all[i] == scan::lines(before)[i]);
                }
            }
        }
    }
}

/// A line that was taken out is gone.
pub proof fn law_removed_line_is_gone(s: Text, line: Text)
    ensures
        !setup::has_line(setup::without_line(s, line), line),
{
    let list = scan::lines(s);
    assert forall|k: int| 0 <= k < list.len() implies is_one_line(#[trigger] list[k]) by {
        lemma_lines_are_lines(s, k);
    }
    lemma_other_lines(list, line, list.len() as int);
}

// ---------------------------------------------------------------------------
// The bodies of the managed blocks
// ---------------------------------------------------------------------------

/// Whether a text has none of the letters by which the markers are told.
spec fn free_of_letters(s: Text) -> bool {
    forall|i: int| 0 <= i < s.len() ==> #[trigger] s[i] != 'B' && s[i] != 'E'
}

proof fn lemma_unmarked(s: Text)
    requires
        free_of_letters(s),
    ensures
        unmarked(s),
{
    reveal(setup::begin_marker);
    reveal(setup::end_marker);
    reveal_strlit(
        "# BEGIN rbx-merge (managed) — edit install flags and re-run, or delete to uninstall",
    );
    reveal_strlit("# END rbx-merge");
    let (b, e) = (setup::begin_marker(), setup::end_marker());
    assert(b[2] == 'B' && e[2] == 'E');
    assert forall|i: int| !scan::matches_at(s, b, i) && !#[trigger] scan::matches_at(s, e, i) by {
        if scan::matches_at(s, b, i) {
            assert(s.subrange(i, i + b.len())[2] == s[i + 2]);
        }
        if scan::matches_at(s, e, i) {
            assert(s.subrange(i, i + e.len())[2] == s[i + 2]);
        }
    }
}

proof fn lemma_fed_lines_free(list: Seq<Text>)
    requires
        forall|k: int| 0 <= k < list.len() ==> free_of_letters(#[trigger] list[k]),
    ensures
        free_of_letters(setup::fed_lines(list)),
    decreases list.len(),
{
    reveal_strlit("\n");
    if list.len() > 0 {
        assert forall|k: int| 0 <= k < list.drop_last().len() implies free_of_letters(
            #[trigger] list.drop_last()[k],
        ) by {
            assert(list.drop_last()[k] == list[k]);
        }
        lemma_fed_lines_free(list.drop_last());
        assert(free_of_letters(list[list.len() - 1]));
    }
}

proof fn lemma_join_free(list: Seq<Text>)
    requires
        forall|k: int| 0 <= k < list.len() ==> free_of_letters(#[trigger] list[k]),
    ensures
        free_of_letters(text::join(list, "\n"@)),
    decreases list.len(),
{
    reveal_strlit("\n");
    if list.len() > 1 {
        assert forall|k: int| 0 <= k < list.drop_last().len() implies free_of_letters(
            #[trigger] list.drop_last()[k],
        ) by {
            assert(list.drop_last()[k] == list[k]);
        }
        lemma_join_free(list.drop_last());
        assert(free_of_letters(list[list.len() - 1]));
    } else if list.len() == 1 {
        assert(free_of_letters(list[0]));
    }
}

/// The rules for the extensions, as a list.
spec fn rule_list(attributes: Text) -> Seq<Text> {
    setup::all_extensions().map_values(|ext: Text| setup::rule(ext, attributes))
}

/// What the extensions are made of.
proof fn lemma_extensions(k: int)
    requires
        0 <= k < setup::all_extensions().len(),
    ensures
        free_of_letters(setup::all_extensions()[k]),
        forall|i: int|
            0 <= i < setup::all_extensions()[k].len() ==> !scan::is_space(
                #[trigger] setup::all_extensions()[k][i],
            ) && setup::all_extensions()[k][i] != '\n',
{
    reveal_strlit("rbxl");
    reveal_strlit("rbxlx");
    reveal_strlit("rbxm");
    reveal_strlit("rbxmx");
    let ext = setup::all_extensions()[k];
    assert(ext == "rbxl"@ || ext == "rbxlx"@ || ext == "rbxm"@ || ext == "rbxmx"@);
}

proof fn lemma_rules_free(attributes: Text)
    requires
        free_of_letters(attributes),
    ensures
        free_of_letters(setup::rules(attributes)),
{
    reveal_strlit("*.");
    reveal_strlit(" ");
    assert forall|k: int| 0 <= k < rule_list(attributes).len() implies free_of_letters(
        #[trigger] rule_list(attributes)[k],
    ) by {
        lemma_extensions(k);
        let ext = setup::all_extensions()[k];
        assert(rule_list(attributes)[k] == "*."@ + ext + " "@ + attributes);
    }
    lemma_join_free(rule_list(attributes));
}

proof fn lemma_comment_lines(k: int)
    requires
        0 <= k < setup::gitattributes_comment().len(),
    ensures
        ({
            let line = setup::gitattributes_comment()[k];
            &&& free_of_letters(line)
            &&& is_one_line(line)
            &&& line.len() > 0
            &&& line[0] == '#'
            &&& line.last() != '\r'
        }),
{
    let line = setup::gitattributes_comment()[k];
    if k == 0 {
        reveal_strlit("# Safe default: a clone that has not run `rbx-merge install` treats these");
    } else if k == 1 {
        reveal_strlit("# as binary, so Git refuses to line-merge them (conflict + keep ours)");
    } else if k == 2 {
        reveal_strlit("# instead of silently corrupting structured Roblox files. `install`");
    } else {
        reveal_strlit("# writes a higher-precedence override into .git/info/attributes.");
    }
}

/// Neither body of a managed block holds a marker of one.
pub proof fn law_bodies_hold_no_marker()
    ensures
        unmarked(setup::gitattributes_text()),
        unmarked(setup::attributes_text()),
{
    assert forall|k: int| 0 <= k < setup::gitattributes_comment().len() implies free_of_letters(
        #[trigger] setup::gitattributes_comment()[k],
    ) by {
        lemma_comment_lines(k);
    }
    lemma_fed_lines_free(setup::gitattributes_comment());
    reveal_strlit("binary");
    lemma_rules_free("binary"@);
    lemma_unmarked(setup::gitattributes_text());
    assert forall|k: int| 0 <= k < setup::attributes_comment().len() implies free_of_letters(
        #[trigger] setup::attributes_comment()[k],
    ) by {
        reveal_strlit("# Higher precedence than the committed .gitattributes; enables the");
        reveal_strlit("# semantic diff and merge drivers for this clone.");
    }
    lemma_fed_lines_free(setup::attributes_comment());
    reveal_strlit("merge=rbxdom diff=rbxdom");
    lemma_rules_free("merge=rbxdom diff=rbxdom"@);
    lemma_unmarked(setup::attributes_text());
}

/// Taking a set-up back reaches what setting up has written: the same configuration
/// and the same attributes, and the line that hides stashed conflicts.
pub proof fn law_uninstall_reaches_what_install_wrote(options: setup::InstallOptions)
    ensures
        ({
            let (there, back) = (setup::plan_of(options), setup::uninstall_of(options.global));
            &&& back.global_config == there.global_config
            &&& back.attributes == there.attributes
            &&& there.exclude is Append ==> back.exclude is Remove
        }),
{
}

/// Taking a set-up back undoes it: the attributes are as they were without a block,
/// but for a line feed at the end of a last line that lacked one.
pub proof fn law_uninstall_undoes_install(s: Text)
    requires
        setup::upserted(s, setup::attributes_text()) is Some,
    ensures
        setup::removed(setup::upserted(s, setup::attributes_text())->0) == Some(
            if setup::block_place(s) is Nowhere {
                closed_off(s)
            } else {
                setup::removed(s)->0
            },
        ),
{
    law_bodies_hold_no_marker();
    law_remove_undoes_upsert(s, setup::attributes_text());
}

// --- the lines of the bodies ------------------------------------------------

proof fn lemma_fed_lines(list: Seq<Text>)
    requires
        forall|k: int|
            0 <= k < list.len() ==> is_one_line(#[trigger] list[k]) && scan::without_return(list[k])
                == list[k],
    ensures
        scan::lines(setup::fed_lines(list)) == list,
        setup::fed_lines(list).len() == 0 || setup::fed_lines(list).last() == '\n',
    decreases list.len(),
{
    reveal_strlit("\n");
    assert("\n"@ =~= seq!['\n']);
    if list.len() == 0 {
        assert(scan::lines(setup::fed_lines(list)) =~= list);
    } else {
        let (rest, last) = (list.drop_last(), list[list.len() - 1]);
        assert forall|k: int| 0 <= k < rest.len() implies is_one_line(#[trigger] rest[k])
            && scan::without_return(rest[k]) == rest[k] by {
            assert(rest[k] == list[k]);
        }
        lemma_fed_lines(rest);
        lemma_lines_concat(setup::fed_lines(rest), last + seq!['\n']);
        lemma_one_line(last);
        assert(setup::fed_lines(list) =~= setup::fed_lines(rest) + (last + seq!['\n']));
        assert(rest + seq![last] =~= list);
    }
}

/// Lines that are joined are lines with their line feeds, but for the last.
proof fn lemma_join_is_fed(list: Seq<Text>)
    requires
        list.len() > 0,
    ensures
        text::join(list, "\n"@) == setup::fed_lines(list.drop_last()) + list.last(),
    decreases list.len(),
{
    if list.len() == 1 {
        assert(setup::fed_lines(list.drop_last()) + list.last() =~= list[0]);
    } else {
        lemma_join_is_fed(list.drop_last());
    }
}

proof fn lemma_last_line(line: Text)
    requires
        is_one_line(line),
        line.len() > 0,
    ensures
        scan::lines(line) == seq![line],
{
    scan::lemma_find(line, seq!['\n'], 0);
    if let Some(i) = scan::find(line, seq!['\n'], 0) {
        if i < line.len() {
            lemma_feed_at(line, i);
        }
    }
}

/// The lines of the safe default: the comment, then the rules.
proof fn lemma_safe_lines()
    ensures
        scan::lines(setup::gitattributes_text()) == setup::gitattributes_comment() + rule_list(
            "binary"@,
        ),
{
    let (comment, list) = (setup::gitattributes_comment(), rule_list("binary"@));
    assert forall|k: int| 0 <= k < comment.len() implies is_one_line(#[trigger] comment[k])
        && scan::without_return(comment[k]) == comment[k] by {
        lemma_comment_lines(k);
    }
    assert forall|k: int| 0 <= k < list.len() implies is_one_line(#[trigger] list[k])
        && scan::without_return(list[k]) == list[k] && list[k].len() > 0 by {
        lemma_safe_rule(k);
    }
    let (rest, last) = (list.drop_last(), list[list.len() - 1]);
    assert forall|k: int| 0 <= k < rest.len() implies is_one_line(#[trigger] rest[k])
        && scan::without_return(rest[k]) == rest[k] by {
        assert(rest[k] == list[k]);
    }
    lemma_fed_lines(comment);
    lemma_fed_lines(rest);
    lemma_join_is_fed(list);
    lemma_last_line(last);
    lemma_lines_concat(setup::fed_lines(rest), last);
    assert(rest + seq![last] =~= list);
    lemma_lines_concat(setup::fed_lines(comment), setup::rules("binary"@));
}

/// What a rule of the safe default is made of.
proof fn lemma_safe_rule(k: int)
    requires
        0 <= k < setup::all_extensions().len(),
    ensures
        ({
            let line = rule_list("binary"@)[k];
            &&& is_one_line(line)
            &&& line.len() > 0
            &&& scan::without_return(line) == line
            &&& line == setup::rule(setup::all_extensions()[k], "binary"@)
            &&& line.last() == 'y'
            &&& scan::trim(line) == line
            &&& scan::words(line) == seq!["*."@ + setup::all_extensions()[k], "binary"@]
            &&& line[0] == '*'
        }),
{
    reveal_strlit("*.");
    reveal_strlit(" ");
    reveal_strlit("binary");
    lemma_extensions(k);
    let ext = setup::all_extensions()[k];
    let line = rule_list("binary"@)[k];
    let pattern = "*."@ + ext;
    assert(line == pattern + " "@ + "binary"@);
    assert(" "@ =~= seq![' ']);
    assert(line =~= pattern + (seq![' '] + "binary"@));
    lemma_two_words(pattern, "binary"@);
}

proof fn lemma_word_ends(a: Text, rest: Text)
    requires
        forall|i: int| 0 <= i < a.len() ==> !scan::is_space(#[trigger] a[i]),
        ends_a_word(rest),
    ensures
        scan::word_length(a + rest) == a.len(),
    decreases a.len(),
{
    let s = a + rest;
    if a.len() == 0 {
        assert(s =~= rest);
    } else {
        let tail = a.drop_first();
        assert forall|i: int| 0 <= i < tail.len() implies !scan::is_space(#[trigger] tail[i]) by {
            assert(tail[i] == a[i + 1]);
        }
        assert(s[0] == a[0]);
        assert(s.drop_first() =~= tail + rest);
        lemma_word_ends(tail, rest);
    }
}

/// Two words with a space between them.
proof fn lemma_two_words(a: Text, b: Text)
    requires
        a.len() > 0,
        b.len() > 0,
        forall|i: int| 0 <= i < a.len() ==> !scan::is_space(#[trigger] a[i]),
        forall|i: int| 0 <= i < b.len() ==> !scan::is_space(#[trigger] b[i]),
    ensures
        scan::words(a + (seq![' '] + b)) == seq![a, b],
        scan::trim(a + (seq![' '] + b)) == a + (seq![' '] + b),
{
    let rest = seq![' '] + b;
    let s = a + rest;
    let none = Seq::<char>::empty();
    assert(s[0] == a[0]);
    assert(s.last() == b.last());
    assert(!scan::is_space(b[b.len() - 1]));
    assert(scan::trim_start(s) == s);
    lemma_word_ends(a, rest);
    assert(s.take(a.len() as int) =~= a);
    assert(s.skip(a.len() as int) =~= rest);
    assert(rest.drop_first() =~= b);
    assert(scan::trim_start(b) == b);
    assert(scan::trim_start(rest) == b) by {
        reveal_with_fuel(scan::trim_start, 2);
    }
    lemma_word_ends(b, none);
    assert(b + none =~= b);
    assert(b.take(b.len() as int) =~= b);
    assert(b.skip(b.len() as int) =~= none);
    assert(scan::words(none) =~= Seq::<Text>::empty());
    assert(scan::words(rest) =~= seq![b]);
    assert(scan::words(s) =~= seq![a, b]);
}

proof fn lemma_safe_posture(ext: Text, n: int)
    requires
        0 <= n <= setup::all_extensions().len(),
    ensures
        ({
            let lines = setup::gitattributes_comment() + rule_list("binary"@);
            let count = setup::gitattributes_comment().len() as int;
            setup::all_extensions().take(n).contains(ext) ==> setup::posture_lines(
                lines,
                ext,
                count + n,
            ) is Safe
        }),
    decreases n,
{
    let all = setup::all_extensions();
    let lines = setup::gitattributes_comment() + rule_list("binary"@);
    let count = setup::gitattributes_comment().len() as int;
    if n > 0 {
        lemma_safe_posture(ext, n - 1);
        lemma_safe_rule(n - 1);
        let line = rule_list("binary"@)[n - 1];
        assert(lines[count + n - 1] == line);
        let words = scan::words(line);
        let before = setup::posture_lines(lines, ext, count + n - 1);
        reveal_strlit("*.");
        reveal_with_fuel(setup::posture_words, 2);
        assert(setup::posture_words(before, words, 2) is Safe);
        if all.take(n).contains(ext) {
            let k = all.take(n).index_of(ext);
            if k < n - 1 {
                assert(all.take(n - 1)[k] == ext);
            } else {
                assert(all[n - 1] == ext);
            }
        }
    }
}

/// The committed default is safe for every extension: a rule says that it is binary,
/// and no later one says otherwise. It ends without a line feed.
pub proof fn law_safe_default_is_safe(ext: Text)
    requires
        setup::all_extensions().contains(ext),
    ensures
        setup::posture_of(setup::gitattributes_text(), ext) is Safe,
        setup::has_line(setup::gitattributes_text(), setup::rule(ext, "binary"@)),
        setup::gitattributes_text().last() != '\n',
{
    let all = setup::all_extensions();
    let list = rule_list("binary"@);
    let n = all.len() as int;
    lemma_safe_lines();
    lemma_safe_posture(ext, n);
    assert(all.take(n) =~= all);
    let k = all.index_of(ext);
    let count = setup::gitattributes_comment().len() as int;
    lemma_safe_rule(k);
    assert(scan::lines(setup::gitattributes_text())[count + k] == list[k]);
    lemma_safe_rule(n - 1);
    lemma_join_is_fed(list);
    assert(setup::gitattributes_text().last() == list[n - 1].last());
}

} // verus!
