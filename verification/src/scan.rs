//! Searching, trimming and splitting text.

use vstd::prelude::*;

use crate::text::{chars_of, Text};

verus! {

/// Whether a character is white space.
pub open spec fn is_space(c: char) -> bool {
    let n = c as u32;
    ||| 9 <= n <= 13
    ||| n == 0x20
    ||| n == 0x85
    ||| n == 0xa0
    ||| n == 0x1680
    ||| 0x2000 <= n <= 0x200a
    ||| n == 0x2028
    ||| n == 0x2029
    ||| n == 0x202f
    ||| n == 0x205f
    ||| n == 0x3000
}

/// The text without the white space that it starts with.
pub open spec fn trim_start(s: Text) -> Text
    decreases s.len(),
{
    if s.len() > 0 && is_space(s[0]) {
        trim_start(s.drop_first())
    } else {
        s
    }
}

/// The text without the white space that it ends with.
pub open spec fn trim_end(s: Text) -> Text
    decreases s.len(),
{
    if s.len() > 0 && is_space(s.last()) {
        trim_end(s.drop_last())
    } else {
        s
    }
}

/// The text without the white space around it.
pub open spec fn trim(s: Text) -> Text {
    trim_end(trim_start(s))
}

/// Whether a pattern stands at a place.
pub open spec fn matches_at(s: Text, pat: Text, i: int) -> bool {
    0 <= i && i + pat.len() <= s.len() && s.subrange(i, i + pat.len()) == pat
}

/// The first place from `from` on where a pattern stands.
pub open spec fn find(s: Text, pat: Text, from: int) -> Option<int>
    decreases s.len() + 1 - from,
{
    if from < 0 || from > s.len() {
        None
    } else if matches_at(s, pat, from) {
        Some(from)
    } else {
        find(s, pat, from + 1)
    }
}

/// The last place up to `upto` where a pattern stands.
pub open spec fn find_last(s: Text, pat: Text, upto: int) -> Option<int>
    decreases upto + 1,
{
    if upto < 0 {
        None
    } else if matches_at(s, pat, upto) {
        Some(upto)
    } else {
        find_last(s, pat, upto - 1)
    }
}

/// The parts of a text between the places where a pattern stands.
pub open spec fn split_by(s: Text, pat: Text) -> Seq<Text>
    decreases s.len(),
{
    match find(s, pat, 0) {
        Some(i) if pat.len() > 0 && 0 <= i <= s.len() - pat.len() => seq![s.take(i)] + split_by(
            s.skip(i + pat.len()),
            pat,
        ),
        _ => seq![s],
    }
}

/// A line without the carriage return before its line feed.
pub open spec fn without_return(s: Text) -> Text {
    if s.len() > 0 && s.last() == '\r' {
        s.drop_last()
    } else {
        s
    }
}

/// The lines of a text. They end with a line feed, or with a carriage return and a
/// line feed; the last line need not end with either.
pub open spec fn lines(s: Text) -> Seq<Text>
    decreases s.len(),
{
    if s.len() == 0 {
        Seq::empty()
    } else {
        match find(s, seq!['\n'], 0) {
            Some(i) if 0 <= i < s.len() => seq![without_return(s.take(i))] + lines(s.skip(i + 1)),
            _ => seq![s],
        }
    }
}

/// How many characters a text starts with that are not white space.
pub open spec fn word_length(s: Text) -> nat
    decreases s.len(),
{
    if s.len() == 0 || is_space(s[0]) {
        0
    } else {
        1 + word_length(s.drop_first())
    }
}

pub proof fn lemma_trim_start_length(s: Text)
    ensures
        trim_start(s).len() <= s.len(),
        trim_start(s).len() > 0 ==> !is_space(trim_start(s)[0]),
    decreases s.len(),
{
    if s.len() > 0 && is_space(s[0]) {
        lemma_trim_start_length(s.drop_first());
    }
}

pub proof fn lemma_word_length(s: Text)
    ensures
        word_length(s) <= s.len(),
    decreases s.len(),
{
    if s.len() > 0 && !is_space(s[0]) {
        lemma_word_length(s.drop_first());
    }
}

/// The words of a text, between white space.
pub open spec fn words(s: Text) -> Seq<Text>
    decreases s.len(),
{
    let t = trim_start(s);
    if t.len() == 0 {
        Seq::empty()
    } else {
        let n = word_length(t) as int;
        proof {
            lemma_trim_start_length(s);
            lemma_word_length(t);
        }
        seq![t.take(n)] + words(t.skip(n))
    }
}

/// Where a pattern is found it stands, and nowhere before.
pub proof fn lemma_find(s: Text, pat: Text, from: int)
    requires
        0 <= from <= s.len() + 1,
    ensures
        match find(s, pat, from) {
            Some(i) => from <= i && matches_at(s, pat, i) && forall|j: int|
                from <= j < i ==> !#[trigger] matches_at(s, pat, j),
            None => forall|j: int| from <= j ==> !#[trigger] matches_at(s, pat, j),
        },
    decreases s.len() + 1 - from,
{
    if from <= s.len() && !matches_at(s, pat, from) {
        lemma_find(s, pat, from + 1);
    }
}

/// The first place where a pattern stands is where it is found.
pub proof fn lemma_find_is(s: Text, pat: Text, from: int, i: int)
    requires
        0 <= from <= i,
        matches_at(s, pat, i),
        forall|j: int| from <= j < i ==> !#[trigger] matches_at(s, pat, j),
    ensures
        find(s, pat, from) == Some(i),
{
    lemma_find(s, pat, from);
}

/// A pattern that stands nowhere is not found.
pub proof fn lemma_find_none(s: Text, pat: Text, from: int)
    requires
        0 <= from <= s.len() + 1,
        forall|j: int| from <= j ==> !#[trigger] matches_at(s, pat, j),
    ensures
        find(s, pat, from) is None,
{
    lemma_find(s, pat, from);
}

// ---------------------------------------------------------------------------
// Executable counterparts
// ---------------------------------------------------------------------------

/// Whether a character is white space.
pub fn is_white_space(c: char) -> (res: bool)
    ensures
        res == is_space(c),
{
    let n: u32 = c as u32;
    (n >= 9 && n <= 13) || n == 0x20 || n == 0x85 || n == 0xa0 || n == 0x1680 || (n >= 0x2000 && n
        <= 0x200a) || n == 0x2028 || n == 0x2029 || n == 0x202f || n == 0x205f || n == 0x3000
}

/// Copies a part of a text.
pub fn part(s: &Vec<char>, lo: usize, hi: usize) -> (res: Vec<char>)
    requires
        lo <= hi <= s.len(),
    ensures
        res@ == s@.subrange(lo as int, hi as int),
{
    let mut out: Vec<char> = Vec::new();
    let mut i: usize = lo;
    while i < hi
        invariant
            lo <= i <= hi <= s.len(),
            out@ == s@.subrange(lo as int, i as int),
        decreases hi - i,
    {
        out.push(s[i]);
        assert(s@.subrange(lo as int, i + 1) =~= s@.subrange(lo as int, i as int).push(
            s@[i as int],
        ));
        i += 1;
    }
    out
}

/// Where the text starts that is left of a text from `lo` on without the white
/// space in front.
fn skip_space(s: &Vec<char>, lo: usize) -> (res: usize)
    requires
        lo <= s.len(),
    ensures
        lo <= res <= s.len(),
        s@.skip(res as int) == trim_start(s@.skip(lo as int)),
{
    let mut i: usize = lo;
    while i < s.len() && is_white_space(s[i])
        invariant
            lo <= i <= s.len(),
            trim_start(s@.skip(i as int)) == trim_start(s@.skip(lo as int)),
        decreases s.len() - i,
    {
        assert(s@.skip(i as int)[0] == s@[i as int]);
        assert(s@.skip(i as int).drop_first() =~= s@.skip(i + 1));
        i += 1;
    }
    proof {
        if i < s.len() {
            assert(s@.skip(i as int)[0] == s@[i as int]);
        }
    }
    i
}

/// The text without the white space that it starts with.
pub fn trimmed_start(s: &Vec<char>) -> (res: Vec<char>)
    ensures
        res@ == trim_start(s@),
{
    let lo: usize = skip_space(s, 0);
    assert(s@.skip(0) =~= s@);
    assert(s@.subrange(lo as int, s@.len() as int) =~= s@.skip(lo as int));
    part(s, lo, s.len())
}

/// The text without the white space around it.
pub fn trimmed(s: &Vec<char>) -> (res: Vec<char>)
    ensures
        res@ == trim(s@),
{
    let lo: usize = skip_space(s, 0);
    let mut hi: usize = s.len();
    proof {
        assert(s@.skip(0) =~= s@);
        assert(s@.subrange(lo as int, s@.len() as int) =~= s@.skip(lo as int));
    }
    while hi > lo && is_white_space(s[hi - 1])
        invariant
            lo <= hi <= s.len(),
            trim_end(s@.subrange(lo as int, hi as int)) == trim(s@),
        decreases hi - lo,
    {
        let ghost t = s@.subrange(lo as int, hi as int);
        assert(t.last() == s@[hi - 1]);
        assert(t.drop_last() =~= s@.subrange(lo as int, hi - 1));
        hi -= 1;
    }
    proof {
        let t = s@.subrange(lo as int, hi as int);
        if t.len() > 0 {
            assert(t.last() == s@[hi - 1]);
        }
    }
    part(s, lo, hi)
}

/// Whether a pattern stands at a place.
pub fn stands_at(s: &Vec<char>, pat: &Vec<char>, i: usize) -> (res: bool)
    requires
        i <= s.len(),
    ensures
        res == matches_at(s@, pat@, i as int),
{
    if pat.len() > s.len() - i {
        return false;
    }
    let ghost t = s@.subrange(i as int, i + pat@.len());
    let mut k: usize = 0;
    while k < pat.len()
        invariant
            k <= pat.len() <= s.len() - i,
            t == s@.subrange(i as int, i + pat@.len()),
            forall|j: int| 0 <= j < k ==> t[j] == pat@[j],
        decreases pat.len() - k,
    {
        if s[i + k] != pat[k] {
            assert(t[k as int] != pat@[k as int]);
            return false;
        }
        k += 1;
    }
    assert(t =~= pat@);
    true
}

/// Finds the first place from `from` on where a pattern stands.
pub fn find_from(s: &Vec<char>, pat: &Vec<char>, from: usize) -> (res: Option<usize>)
    requires
        from <= s.len(),
    ensures
        match res {
            Some(i) => find(s@, pat@, from as int) == Some(i as int) && from <= i && matches_at(
                s@,
                pat@,
                i as int,
            ),
            None => find(s@, pat@, from as int) is None,
        },
{
    let mut i: usize = from;
    while i < s.len()
        invariant
            from <= i <= s.len(),
            find(s@, pat@, from as int) == find(s@, pat@, i as int),
        decreases s.len() - i,
    {
        if stands_at(s, pat, i) {
            return Some(i);
        }
        i += 1;
    }
    if stands_at(s, pat, i) {
        return Some(i);
    }
    assert(find(s@, pat@, i + 1) is None);
    None
}

/// Finds the last place where a pattern stands.
pub fn find_back(s: &Vec<char>, pat: &Vec<char>) -> (res: Option<usize>)
    ensures
        match res {
            Some(i) => find_last(s@, pat@, s@.len() as int) == Some(i as int) && matches_at(
                s@,
                pat@,
                i as int,
            ),
            None => find_last(s@, pat@, s@.len() as int) is None,
        },
{
    let mut i: usize = s.len();
    if stands_at(s, pat, i) {
        return Some(i);
    }
    while i > 0
        invariant
            i <= s.len(),
            find_last(s@, pat@, s@.len() as int) == find_last(s@, pat@, i as int),
            !matches_at(s@, pat@, i as int),
        decreases i,
    {
        i -= 1;
        if stands_at(s, pat, i) {
            return Some(i);
        }
    }
    assert(find_last(s@, pat@, -1) is None);
    None
}

/// The characters of several texts.
pub open spec fn texts_view(list: Seq<Vec<char>>) -> Seq<Text> {
    list.map_values(|v: Vec<char>| v@)
}

/// Splits a text at a pattern.
pub fn split_at_pattern(s: &Vec<char>, pat: &Vec<char>) -> (res: Vec<Vec<char>>)
    requires
        pat.len() > 0,
    ensures
        texts_view(res@) == split_by(s@, pat@),
{
    let mut out: Vec<Vec<char>> = Vec::new();
    let mut start: usize = 0;
    proof {
        assert(s@.skip(0) =~= s@);
        assert(texts_view(out@) + split_by(s@, pat@) =~= split_by(s@, pat@));
    }
    let mut found = find_from(s, pat, 0);
    while found.is_some()
        invariant
            start <= s.len(),
            pat.len() > 0,
            split_by(s@, pat@) == texts_view(out@) + split_by(s@.skip(start as int), pat@),
            match found {
                Some(i) => find(s@, pat@, start as int) == Some(i as int) && start <= i
                    && matches_at(s@, pat@, i as int),
                None => find(s@, pat@, start as int) is None,
            },
        decreases s.len() - start,
    {
        let at: usize = match found {
            Some(at) => at,
            None => start,
        };
        let ghost before = texts_view(out@);
        let ghost rest = s@.skip(start as int);
        let piece = part(s, start, at);
        let ghost model = piece@;
        proof {
            lemma_find_in_rest(s@, pat@, start as int);
            assert(rest.take(at - start) =~= model);
            assert(rest.skip(at - start + pat@.len()) =~= s@.skip(at + pat@.len()));
        }
        out.push(piece);
        start = at + pat.len();
        proof {
            assert(texts_view(out@) =~= before.push(model));
            let tail = split_by(s@.skip(start as int), pat@);
            assert(before + (seq![model] + tail) =~= before.push(model) + tail);
        }
        found = find_from(s, pat, start);
    }
    let ghost before = texts_view(out@);
    let piece = part(s, start, s.len());
    let ghost model = piece@;
    proof {
        lemma_find_in_rest(s@, pat@, start as int);
        assert(model =~= s@.skip(start as int));
    }
    out.push(piece);
    proof {
        assert(texts_view(out@) =~= before.push(model));
        assert(before + seq![model] =~= before.push(model));
    }
    out
}

/// Looking for a pattern from a place on is looking for it in the rest.
proof fn lemma_find_in_rest(s: Text, pat: Text, start: int)
    requires
        0 <= start <= s.len(),
    ensures
        find(s.skip(start), pat, 0) == (match find(s, pat, start) {
            Some(i) => Some(i - start),
            None => None,
        }),
{
    let rest = s.skip(start);
    lemma_find(s, pat, start);
    assert forall|j: int| 0 <= j implies #[trigger] matches_at(rest, pat, j) == matches_at(
        s,
        pat,
        start + j,
    ) by {
        if j + pat.len() <= rest.len() {
            assert(rest.subrange(j, j + pat.len()) =~= s.subrange(
                start + j,
                start + j + pat.len(),
            ));
        }
    }
    match find(s, pat, start) {
        Some(i) => {
            assert(matches_at(rest, pat, i - start));
            lemma_find_is(rest, pat, 0, i - start);
        },
        None => {
            lemma_find_none(rest, pat, 0);
        },
    }
}

/// Splits a text into its lines.
pub fn split_lines(s: &Vec<char>) -> (res: Vec<Vec<char>>)
    ensures
        texts_view(res@) == lines(s@),
{
    let feed: Vec<char> = vec!['\n'];
    assert(feed@ =~= seq!['\n']);
    let mut out: Vec<Vec<char>> = Vec::new();
    let mut start: usize = 0;
    proof {
        assert(s@.skip(0) =~= s@);
        assert(texts_view(out@) + lines(s@) =~= lines(s@));
    }
    while start < s.len()
        invariant
            start <= s.len(),
            feed@ == seq!['\n'],
            lines(s@) == texts_view(out@) + lines(s@.skip(start as int)),
        decreases s.len() - start,
    {
        let ghost before = texts_view(out@);
        let ghost rest = s@.skip(start as int);
        proof {
            lemma_find_in_rest(s@, feed@, start as int);
        }
        match find_from(s, &feed, start) {
            Some(at) => {
                let hi: usize = if at > start && s[at - 1] == '\r' {
                    at - 1
                } else {
                    at
                };
                let line = part(s, start, hi);
                let ghost model = line@;
                proof {
                    assert(rest.take(at - start) =~= s@.subrange(start as int, at as int));
                    if at > start {
                        assert(rest.take(at - start).last() == s@[at - 1]);
                    }
                    assert(model =~= without_return(rest.take(at - start)));
                    assert(rest.skip(at - start + 1) =~= s@.skip(at + 1));
                }
                out.push(line);
                start = at + 1;
                proof {
                    assert(texts_view(out@) =~= before.push(model));
                    let tail = lines(s@.skip(start as int));
                    assert(before + (seq![model] + tail) =~= before.push(model) + tail);
                }
            },
            None => {
                let line = part(s, start, s.len());
                let ghost model = line@;
                assert(model =~= rest);
                out.push(line);
                start = s.len();
                proof {
                    assert(texts_view(out@) =~= before.push(model));
                    assert(s@.skip(start as int) =~= Seq::<char>::empty());
                    assert(before + seq![model] =~= before.push(model) + lines(
                        s@.skip(start as int),
                    ));
                }
            },
        }
    }
    assert(s@.skip(start as int) =~= Seq::<char>::empty());
    assert(texts_view(out@) =~= texts_view(out@) + Seq::<Text>::empty());
    out
}

/// Splits a text into its words.
pub fn split_words(s: &Vec<char>) -> (res: Vec<Vec<char>>)
    ensures
        texts_view(res@) == words(s@),
{
    let mut out: Vec<Vec<char>> = Vec::new();
    let mut start: usize = skip_space(s, 0);
    proof {
        assert(s@.skip(0) =~= s@);
        lemma_trim_start_length(s@);
        lemma_trim_twice(s@);
        assert(texts_view(out@) + words(s@.skip(start as int)) =~= words(s@));
    }
    while start < s.len()
        invariant
            start <= s.len(),
            trim_start(s@.skip(start as int)) == s@.skip(start as int),
            words(s@) == texts_view(out@) + words(s@.skip(start as int)),
        decreases s.len() - start,
    {
        let ghost before = texts_view(out@);
        let ghost rest = s@.skip(start as int);
        let mut end: usize = start;
        while end < s.len() && !is_white_space(s[end])
            invariant
                start <= end <= s.len(),
                word_length(s@.skip(start as int)) == end - start + word_length(
                    s@.skip(end as int),
                ),
            decreases s.len() - end,
        {
            assert(s@.skip(end as int)[0] == s@[end as int]);
            assert(s@.skip(end as int).drop_first() =~= s@.skip(end + 1));
            end += 1;
        }
        proof {
            if end < s.len() {
                assert(s@.skip(end as int)[0] == s@[end as int]);
            }
            lemma_trim_start_length(rest);
            assert(rest[0] == s@[start as int]);
            lemma_word_length(rest);
        }
        let word = part(s, start, end);
        let ghost model = word@;
        out.push(word);
        let next: usize = skip_space(s, end);
        proof {
            let n = word_length(rest) as int;
            assert(n == end - start);
            assert(rest.take(n) =~= model);
            assert(rest.skip(n) =~= s@.skip(end as int));
            assert(texts_view(out@) =~= before.push(model));
            lemma_trim_twice(s@.skip(end as int));
            let tail = words(s@.skip(end as int));
            assert(before + (seq![model] + tail) =~= before.push(model) + tail);
            assert(n > 0);
        }
        start = next;
    }
    assert(s@.skip(start as int) =~= Seq::<char>::empty());
    assert(texts_view(out@) =~= texts_view(out@) + Seq::<Text>::empty());
    out
}

/// Trimming again changes nothing, and neither do the words.
proof fn lemma_trim_twice(s: Text)
    ensures
        trim_start(trim_start(s)) == trim_start(s),
        words(trim_start(s)) == words(s),
{
    lemma_trim_start_length(s);
}

/// Whether characters are those of a string.
pub fn is_text(a: &Vec<char>, b: &str) -> (res: bool)
    ensures
        res == (a@ == b@),
{
    let c = chars_of(b);
    if a.len() != c.len() {
        return false;
    }
    let mut i: usize = 0;
    while i < a.len()
        invariant
            i <= a.len(),
            a.len() == c.len(),
            c@ == b@,
            forall|k: int| 0 <= k < i ==> a@[k] == c@[k],
        decreases a.len() - i,
    {
        if a[i] != c[i] {
            assert(a@[i as int] != b@[i as int]);
            return false;
        }
        i += 1;
    }
    assert(a@ =~= b@);
    true
}

} // verus!
