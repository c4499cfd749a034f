//! How texts are ordered and taken apart, and how values are written anew.

use vstd::prelude::*;

use crate::scan;
use crate::semantic::ValueSource;
use crate::text;
use crate::text::Text;
use crate::tree;
use crate::tree::RefMaps;
use crate::value::ValueModel;

verus! {

// ---------------------------------------------------------------------------
// Order
// ---------------------------------------------------------------------------

/// A text sorts before all that it starts; else the first characters that differ decide, by
/// their numbers.
pub proof fn law_first_difference_decides(p: Text, c: char, x: Text, d: char, y: Text)
    requires
        c < d,
    ensures
        text::text_lt(p, p + seq![c] + x),
        text::text_lt(p + seq![c] + x, p + seq![d] + y),
        !text::text_lt(p + seq![d] + y, p + seq![c] + x),
        !text::text_lt(p + seq![c] + x, p),
        !text::text_lt(p, p),
    decreases p.len(),
{
    let (a, b) = (p + seq![c] + x, p + seq![d] + y);
    if p.len() == 0 {
        assert(a[0] == c && b[0] == d);
    } else {
        let q = p.drop_first();
        law_first_difference_decides(q, c, x, d, y);
        assert(a[0] == p[0] && b[0] == p[0]);
        assert(a.drop_first() =~= q + seq![c] + x);
        assert(b.drop_first() =~= q + seq![d] + y);
    }
}

// ---------------------------------------------------------------------------
// Words
// ---------------------------------------------------------------------------

/// Whether a text holds no white space.
pub open spec fn is_solid(t: Text) -> bool {
    forall|i: int| 0 <= i < t.len() ==> !scan::is_space(#[trigger] t[i])
}

/// Whether a text is white space alone.
pub open spec fn is_blank(t: Text) -> bool {
    forall|i: int| 0 <= i < t.len() ==> scan::is_space(#[trigger] t[i])
}

/// Blanks, tabs and the ends of lines are white space; letters, digits and signs are not.
pub proof fn law_white_space(c: char)
    ensures
        c == ' ' || c == '\t' || c == '\n' || c == '\r' ==> scan::is_space(c),
        '!' <= c <= '~' ==> !scan::is_space(c),
{
}

proof fn lemma_skip_blank(space: Text, rest: Text)
    requires
        is_blank(space),
        rest.len() > 0 ==> !scan::is_space(rest[0]),
    ensures
        scan::trim_start(space + rest) == rest,
    decreases space.len(),
{
    let t = space + rest;
    if space.len() == 0 {
        assert(t =~= rest);
    } else {
        assert(t[0] == space[0]);
        assert(t.drop_first() =~= space.drop_first() + rest);
        assert forall|i: int| 0 <= i < space.drop_first().len() implies scan::is_space(
            #[trigger] space.drop_first()[i],
        ) by {
            assert(space.drop_first()[i] == space[i + 1]);
        }
        lemma_skip_blank(space.drop_first(), rest);
    }
}

proof fn lemma_word(word: Text, rest: Text)
    requires
        is_solid(word),
        rest.len() > 0 ==> scan::is_space(rest[0]),
    ensures
        scan::word_length(word + rest) == word.len(),
    decreases word.len(),
{
    let t = word + rest;
    if word.len() == 0 {
        assert(t =~= rest);
    } else {
        assert(t[0] == word[0]);
        assert(t.drop_first() =~= word.drop_first() + rest);
        assert forall|i: int| 0 <= i < word.drop_first().len() implies !scan::is_space(
            #[trigger] word.drop_first()[i],
        ) by {
            assert(word.drop_first()[i] == word[i + 1]);
        }
        lemma_word(word.drop_first(), rest);
    }
}

/// The words of a text are what white space parts: behind white space a word up to the next
/// white space is the first, and the words of the rest follow. White space alone holds none.
pub proof fn law_words_are_parted_by_white_space(space: Text, word: Text, rest: Text)
    requires
        is_blank(space),
        is_solid(word),
        rest.len() > 0 ==> scan::is_space(rest[0]),
    ensures
        word.len() > 0 ==> scan::words(space + word + rest) == seq![word] + scan::words(rest),
        scan::words(space) == Seq::<Text>::empty(),
{
    assert(space + Seq::<char>::empty() =~= space);
    lemma_skip_blank(space, Seq::empty());
    if word.len() > 0 {
        let t = word + rest;
        assert(t[0] == word[0]);
        assert(space + word + rest =~= space + t);
        lemma_skip_blank(space, t);
        lemma_word(word, rest);
        assert(t.take(word.len() as int) =~= word);
        assert(t.skip(word.len() as int) =~= rest);
    }
}

proof fn lemma_trim_end(t: Text, space: Text)
    requires
        is_blank(space),
        t.len() > 0 ==> !scan::is_space(t.last()),
    ensures
        scan::trim_end(t + space) == t,
    decreases space.len(),
{
    let s = t + space;
    if space.len() == 0 {
        assert(s =~= t);
    } else {
        assert(s.last() == space[space.len() - 1]);
        assert(s.drop_last() =~= t + space.drop_last());
        assert forall|i: int| 0 <= i < space.drop_last().len() implies scan::is_space(
            #[trigger] space.drop_last()[i],
        ) by {
            assert(space.drop_last()[i] == space[i]);
        }
        lemma_trim_end(t, space.drop_last());
    }
}

/// What is trimmed is the white space around a text, and no other.
pub proof fn law_white_space_around_is_trimmed(before: Text, t: Text, after: Text)
    requires
        is_blank(before),
        is_blank(after),
        t.len() > 0,
        !scan::is_space(t[0]),
        !scan::is_space(t.last()),
    ensures
        scan::trim(before + t + after) == t,
{
    assert(before + t + after =~= before + (t + after));
    assert((t + after)[0] == t[0]);
    lemma_skip_blank(before, t + after);
    lemma_trim_end(t, after);
}

// ---------------------------------------------------------------------------
// References
// ---------------------------------------------------------------------------

/// Whether two values are the same but for where their references lead.
pub open spec fn same_but_references(a: ValueModel, b: ValueModel) -> bool
    decreases a,
{
    match (a, b) {
        (ValueModel::Ref(_), ValueModel::Ref(_)) => true,
        (ValueModel::Object(_), ValueModel::Object(_)) => true,
        (ValueModel::Leaf(x), ValueModel::Leaf(y)) => x == y,
        (ValueModel::Attributes(x), ValueModel::Attributes(y)) => {
            &&& x.len() == y.len()
            &&& forall|i: int|
                0 <= i < x.len() ==> (#[trigger] x[i]).0 == y[i].0 && same_but_references(
                    x[i].1,
                    y[i].1,
                )
        },
        _ => false,
    }
}

/// A value is written with all that it holds; references alone may lead elsewhere, and nil
/// stays nil. A value put together from several sides is written as it is.
pub proof fn law_writing_keeps_all_but_references(maps: RefMaps, s: ValueSource, v: ValueModel)
    ensures
        same_but_references(v, tree::rewritten(maps, s, v)),
        tree::rewritten(maps, s, ValueModel::Ref(0)) == ValueModel::Ref(0),
        tree::rewritten(maps, ValueSource::Merged, v) == v,
    decreases v,
{
    if let ValueModel::Attributes(list) = v {
        tree::lemma_rewritten_list(maps, s, list);
        tree::lemma_rewritten_list(maps, ValueSource::Merged, list);
        let other = tree::rewritten_list(maps, s, list);
        assert forall|i: int| 0 <= i < list.len() implies (#[trigger] list[i]).0 == other[i].0
            && same_but_references(list[i].1, other[i].1) by {
            law_writing_keeps_all_but_references(maps, s, list[i].1);
            assert(other[i] == (list[i].0, tree::rewritten(maps, s, list[i].1)));
        }
        let plain = tree::rewritten_list(maps, ValueSource::Merged, list);
        assert forall|i: int| 0 <= i < list.len() implies plain[i] == list[i] by {
            law_writing_keeps_all_but_references(maps, ValueSource::Merged, list[i].1);
            assert(plain[i] == (list[i].0, tree::rewritten(
                maps,
                ValueSource::Merged,
                list[i].1,
            )));
        }
        assert(plain =~= list);
    }
}

} // verus!
