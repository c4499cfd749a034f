//! What the text of a value tells: values that differ are shown by different texts.

use rbx_types::Variant;
use vstd::prelude::*;

use crate::display;
use crate::matching;
use crate::semantic;
use crate::semantic::DomModel;
use crate::text;
use crate::text::Text;
use crate::value::ValueModel;
use crate::variant;
use crate::variant::{BytesKind, IntegerKind, NumberKind, SequenceKind, ShapeModel};

verus! {

// ---------------------------------------------------------------------------
// Numbers
// ---------------------------------------------------------------------------

/// What a digit stands for.
pub open spec fn digit_value(c: char) -> int {
    if '0' <= c <= '9' {
        c as int - '0' as int
    } else {
        c as int - 'a' as int + 10
    }
}

/// The number that digits stand for.
pub open spec fn number_of(t: Text, radix: int) -> int
    decreases t.len(),
{
    if t.len() == 0 {
        0
    } else {
        number_of(t.drop_last(), radix) * radix + digit_value(t.last())
    }
}

/// Whether a text is made of decimal digits.
pub open spec fn is_digits(t: Text) -> bool {
    forall|i: int| 0 <= i < t.len() ==> '0' <= #[trigger] t[i] <= '9'
}

proof fn lemma_decimal_nat(n: nat)
    ensures
        number_of(text::decimal_nat(n), 10) == n,
        is_digits(text::decimal_nat(n)),
        text::decimal_nat(n).len() > 0,
        text::decimal_nat(n)[0] != '0' || text::decimal_nat(n).len() == 1,
    decreases n,
{
    let t = text::decimal_nat(n);
    if n < 10 {
        assert(t.drop_last() =~= Seq::<char>::empty());
        assert(number_of(t.drop_last(), 10) == 0);
    } else {
        lemma_decimal_nat(n / 10);
        let front = text::decimal_nat(n / 10);
        assert(t.drop_last() =~= front);
        assert(t[0] == front[0]);
        if front.len() == 1 {
            assert(front.drop_last() =~= Seq::<char>::empty());
            assert(number_of(front.drop_last(), 10) == 0);
            assert(number_of(front, 10) == digit_value(front[0]));
        }
        assert(n == (n / 10) * 10 + n % 10);
    }
}

/// An integer is written in decimal: its digits read back as the number, without leading
/// zeros, behind a minus sign where it is negative.
pub proof fn law_decimal_reads_back(n: int)
    ensures
        n >= 0 ==> is_digits(text::decimal(n)) && number_of(text::decimal(n), 10) == n,
        n < 0 ==> text::decimal(n).len() > 0 && text::decimal(n)[0] == '-' && is_digits(
            text::decimal(n).skip(1),
        ) && number_of(text::decimal(n).skip(1), 10) == -n,
        n != 0 ==> text::decimal(n)[if n < 0 {
            1int
        } else {
            0
        }] != '0',
        text::decimal(n).len() > 0,
{
    let m = if n < 0 {
        (-n) as nat
    } else {
        n as nat
    };
    lemma_decimal_nat(m);
    let digits = text::decimal_nat(m);
    if n < 0 {
        assert(text::decimal(n).skip(1) =~= digits);
    }
    if digits.len() == 1 && digits[0] == '0' {
        assert(digits.drop_last() =~= Seq::<char>::empty());
        assert(number_of(digits.drop_last(), 10) == 0);
        assert(number_of(digits, 10) == 0);
    }
}

/// Different integers are written differently.
pub proof fn law_decimals_differ(n: int, m: int)
    requires
        text::decimal(n) == text::decimal(m),
    ensures
        n == m,
{
    law_decimal_reads_back(n);
    law_decimal_reads_back(m);
    if n < 0 && m >= 0 {
        assert('0' <= text::decimal(m)[0]);
    }
    if m < 0 && n >= 0 {
        assert('0' <= text::decimal(n)[0]);
    }
}

spec fn power(radix: nat, n: nat) -> nat
    decreases n,
{
    if n == 0 {
        1
    } else {
        radix * power(radix, (n - 1) as nat)
    }
}

proof fn lemma_hex(n: nat, width: nat)
    requires
        n < power(16, width),
    ensures
        number_of(text::hex_digits(n, width), 16) == n,
        text::hex_digits(n, width).len() == width,
    decreases width,
{
    if width > 0 {
        let rest = power(16, (width - 1) as nat);
        assert(n / 16 < rest) by (nonlinear_arith)
            requires
                n < 16 * rest,
        ;
        lemma_hex(n / 16, (width - 1) as nat);
        let t = text::hex_digits(n, width);
        assert(t.drop_last() =~= text::hex_digits(n / 16, (width - 1) as nat));
        assert(n == (n / 16) * 16 + n % 16);
    }
}

/// A number of sixteen bytes is written by its thirty-two hexadecimal digits, which read
/// back as the number.
pub proof fn law_hexadecimal_reads_back(n: u128)
    ensures
        text::hex_digits(n as nat, 32).len() == 32,
        number_of(text::hex_digits(n as nat, 32), 16) == n,
{
    assert(power(16, 32) == 0x1_0000_0000_0000_0000_0000_0000_0000_0000nat) by {
        reveal_with_fuel(power, 33);
    }
    lemma_hex(n as nat, 32);
}

// ---------------------------------------------------------------------------
// Parts of texts
// ---------------------------------------------------------------------------

/// Whether a character does not occur in a text.
pub open spec fn lacks(t: Text, c: char) -> bool {
    forall|i: int| 0 <= i < t.len() ==> #[trigger] t[i] != c
}

/// Two texts that are the same up to a character that occurs in neither front.
proof fn lemma_cut_front(a: Text, x: Text, b: Text, y: Text, c: char)
    requires
        a + seq![c] + x == b + seq![c] + y,
        lacks(a, c),
        lacks(b, c),
    ensures
        a == b,
        x == y,
{
    let (s, t) = (a + seq![c] + x, b + seq![c] + y);
    assert(s.len() == t.len());
    assert(s[a.len() as int] == c);
    assert(t[b.len() as int] == c);
    if a.len() < b.len() {
        assert(t[a.len() as int] == b[a.len() as int]);
    } else if b.len() < a.len() {
        assert(s[b.len() as int] == a[b.len() as int]);
    }
    assert forall|i: int| 0 <= i < a.len() implies a[i] == b[i] by {
        assert(s[i] == a[i] && t[i] == b[i]);
    }
    assert(a =~= b);
    assert(x.len() == y.len());
    assert forall|i: int| 0 <= i < x.len() implies x[i] == y[i] by {
        assert(s[a.len() + 1 + i] == x[i] && t[a.len() + 1 + i] == y[i]);
    }
    assert(x =~= y);
}

/// Two texts that are the same behind a character that occurs in neither end.
proof fn lemma_cut_back(a: Text, x: Text, b: Text, y: Text, c: char)
    requires
        a + seq![c] + x == b + seq![c] + y,
        lacks(x, c),
        lacks(y, c),
    ensures
        a == b,
        x == y,
{
    let (s, t) = (a + seq![c] + x, b + seq![c] + y);
    assert(s.len() == t.len());
    assert(s[a.len() as int] == c);
    assert(t[b.len() as int] == c);
    if a.len() < b.len() {
        assert(s[b.len() as int] == x[b.len() - a.len() - 1]);
    } else if b.len() < a.len() {
        assert(t[a.len() as int] == y[a.len() - b.len() - 1]);
    }
    assert forall|i: int| 0 <= i < a.len() implies a[i] == b[i] by {
        assert(s[i] == a[i] && t[i] == b[i]);
    }
    assert(a =~= b);
    assert forall|i: int| 0 <= i < x.len() implies x[i] == y[i] by {
        assert(s[a.len() + 1 + i] == x[i] && t[a.len() + 1 + i] == y[i]);
    }
    assert(x =~= y);
}

/// A kind and its components in brackets are told from the text.
pub proof fn law_calls_differ(name: Text, arguments: Text, other: Text, others: Text)
    requires
        lacks(name, '('),
        lacks(other, '('),
        display::call(name, arguments) == display::call(other, others),
    ensures
        name == other,
        arguments == others,
{
    reveal_strlit("(");
    reveal_strlit(")");
    assert("("@ =~= seq!['(']);
    let (x, y) = (arguments + ")"@, others + ")"@);
    assert(display::call(name, arguments) =~= name + seq!['('] + x);
    assert(display::call(other, others) =~= other + seq!['('] + y);
    lemma_cut_front(name, x, other, y, '(');
    assert(arguments =~= x.drop_last());
    assert(others =~= y.drop_last());
}

/// Components are told from their list, where none holds a comma.
#[verifier::rlimit(50)]
pub proof fn law_lists_differ(a: Seq<Text>, b: Seq<Text>)
    requires
        display::listed(a) == display::listed(b),
        a.len() > 0,
        b.len() > 0,
        forall|i: int| 0 <= i < a.len() ==> lacks(#[trigger] a[i], ','),
        forall|i: int| 0 <= i < b.len() ==> lacks(#[trigger] b[i], ','),
    ensures
        a == b,
    decreases a.len(),
{
    reveal_strlit(", ");
    assert(", "@ =~= seq![',', ' ']);
    let (s, t) = (display::listed(a), display::listed(b));
    let (x, y) = (a.last(), b.last());
    assert(lacks(a[a.len() - 1], ',') && lacks(b[b.len() - 1], ','));
    if a.len() > 1 {
        let front = text::join(a.drop_last(), ", "@);
        assert(s =~= front + seq![','] + (seq![' '] + x));
        assert(s[front.len() as int] == ',');
    }
    if b.len() > 1 {
        let front = text::join(b.drop_last(), ", "@);
        assert(t =~= front + seq![','] + (seq![' '] + y));
        assert(t[front.len() as int] == ',');
    }
    if a.len() == 1 && b.len() == 1 {
        assert(a =~= b);
    } else if a.len() > 1 && b.len() > 1 {
        let (p, q) = (text::join(a.drop_last(), ", "@), text::join(b.drop_last(), ", "@));
        let (u, v) = (seq![' '] + x, seq![' '] + y);
        assert(lacks(u, ','));
        assert(lacks(v, ','));
        lemma_cut_back(p, u, q, v, ',');
        assert(x =~= u.skip(1));
        assert(y =~= v.skip(1));
        assert forall|i: int| 0 <= i < a.len() - 1 implies lacks(
            #[trigger] a.drop_last()[i],
            ',',
        ) by {
            assert(lacks(a[i], ','));
        }
        assert forall|i: int| 0 <= i < b.len() - 1 implies lacks(
            #[trigger] b.drop_last()[i],
            ',',
        ) by {
            assert(lacks(b[i], ','));
        }
        law_lists_differ(a.drop_last(), b.drop_last());
        assert(a =~= a.drop_last().push(x));
        assert(b =~= b.drop_last().push(y));
    }
}

// ---------------------------------------------------------------------------
// Reading a text
// ---------------------------------------------------------------------------

/// What stands before the first occurrence of a character.
pub open spec fn until(t: Text, c: char) -> Text
    decreases t.len(),
{
    if t.len() == 0 || t[0] == c {
        Seq::empty()
    } else {
        seq![t[0]] + until(t.drop_first(), c)
    }
}

/// The word before the first bracket.
pub open spec fn head_of(t: Text) -> Text {
    until(t, '(')
}

/// What stands between the first bracket and the last character.
pub open spec fn body_of(t: Text) -> Text {
    t.subrange(head_of(t).len() as int + 1, t.len() - 1)
}

/// Whether a character parts components.
pub open spec fn is_separator(c: char) -> bool {
    c == ',' || c == '|'
}

/// Whether a character belongs to no component.
pub open spec fn is_filling(c: char) -> bool {
    c == ' ' || c == '(' || c == ')' || c == '[' || c == ']'
}

/// The components that a text lists.
pub open spec fn pieces(t: Text) -> Seq<Text>
    decreases t.len(),
{
    if t.len() == 0 {
        seq![Seq::empty()]
    } else {
        let front = pieces(t.drop_last());
        let c = t.last();
        if is_separator(c) {
            front.push(Seq::empty())
        } else if is_filling(c) {
            front
        } else {
            front.drop_last().push(front.last().push(c))
        }
    }
}

/// The characters that part the components of a text.
pub open spec fn separators(t: Text) -> Text
    decreases t.len(),
{
    if t.len() == 0 {
        Seq::empty()
    } else if is_separator(t.last()) {
        separators(t.drop_last()).push(t.last())
    } else {
        separators(t.drop_last())
    }
}

/// Whether a text is one component: not empty, and without what parts or fills.
pub open spec fn is_component(t: Text) -> bool {
    &&& t.len() > 0
    &&& forall|i: int|
        0 <= i < t.len() ==> !is_separator(#[trigger] t[i]) && !is_filling(t[i])
}

/// Whether all of some texts are components.
pub open spec fn are_components(parts: Seq<Text>) -> bool {
    forall|i: int| 0 <= i < parts.len() ==> is_component(#[trigger] parts[i])
}

proof fn lemma_until(a: Text, x: Text, c: char)
    requires
        lacks(a, c),
    ensures
        until(a + seq![c] + x, c) == a,
    decreases a.len(),
{
    let t = a + seq![c] + x;
    if a.len() == 0 {
        assert(t[0] == c);
    } else {
        assert(t[0] == a[0]);
        let rest = a.drop_first();
        assert forall|i: int| 0 <= i < rest.len() implies #[trigger] rest[i] != c by {
            assert(rest[i] == a[i + 1]);
        }
        assert(t.drop_first() =~= rest + seq![c] + x);
        lemma_until(rest, x, c);
        assert(seq![a[0]] + rest =~= a);
    }
}

/// A kind and its components are read from the text that joins them.
pub proof fn lemma_call(name: Text, arguments: Text)
    requires
        lacks(name, '('),
    ensures
        head_of(display::call(name, arguments)) == name,
        body_of(display::call(name, arguments)) == arguments,
{
    reveal_strlit("(");
    reveal_strlit(")");
    assert("("@ =~= seq!['(']);
    let t = display::call(name, arguments);
    assert(t =~= name + seq!['('] + (arguments + ")"@));
    lemma_until(name, arguments + ")"@, '(');
    assert(body_of(t) =~= arguments);
}

proof fn lemma_pieces_some(t: Text)
    ensures
        pieces(t).len() > 0,
    decreases t.len(),
{
    if t.len() > 0 {
        lemma_pieces_some(t.drop_last());
    }
}

/// A separator parts what stands before it from what stands behind it.
proof fn lemma_pieces_part(a: Text, c: char, b: Text)
    requires
        is_separator(c),
    ensures
        pieces(a + seq![c] + b) == pieces(a) + pieces(b),
    decreases b.len(),
{
    let t = a + seq![c] + b;
    lemma_pieces_some(a);
    lemma_pieces_some(b);
    if b.len() == 0 {
        assert(t.drop_last() =~= a);
        assert(pieces(b) == seq![Seq::<char>::empty()]);
        assert(pieces(t) =~= pieces(a) + pieces(b));
    } else {
        let front = b.drop_last();
        assert(t.drop_last() =~= a + seq![c] + front);
        assert(t.last() == b.last());
        lemma_pieces_part(a, c, front);
        lemma_pieces_some(front);
        let d = b.last();
        if is_separator(d) {
            assert(pieces(t) =~= pieces(a) + pieces(b));
        } else if is_filling(d) {
        } else {
            assert((pieces(a) + pieces(front)).drop_last() =~= pieces(a) + pieces(
                front,
            ).drop_last());
            assert(pieces(t) =~= pieces(a) + pieces(b));
        }
    }
}

/// Filling at the end of a text changes nothing.
proof fn lemma_pieces_fill(a: Text, c: char)
    requires
        is_filling(c),
    ensures
        pieces(a.push(c)) == pieces(a),
{
    assert(a.push(c).drop_last() =~= a);
}

/// Filling at the start of a text changes nothing.
proof fn lemma_pieces_lead(c: char, b: Text)
    requires
        is_filling(c),
    ensures
        pieces(seq![c] + b) == pieces(b),
    decreases b.len(),
{
    let t = seq![c] + b;
    if b.len() == 0 {
        assert(t.drop_last() =~= b);
        assert(t.last() == c);
    } else {
        assert(t.drop_last() =~= seq![c] + b.drop_last());
        assert(t.last() == b.last());
        lemma_pieces_lead(c, b.drop_last());
    }
}

proof fn lemma_pieces_one(t: Text)
    requires
        forall|i: int| 0 <= i < t.len() ==> !is_separator(#[trigger] t[i]) && !is_filling(t[i]),
    ensures
        pieces(t) == seq![t],
    decreases t.len(),
{
    if t.len() == 0 {
        assert(t =~= Seq::empty());
    } else {
        let front = t.drop_last();
        assert forall|i: int| 0 <= i < front.len() implies !is_separator(#[trigger] front[i])
            && !is_filling(front[i]) by {
            assert(front[i] == t[i]);
        }
        lemma_pieces_one(front);
        assert(!is_separator(t[t.len() - 1]));
        assert(front.push(t.last()) =~= t);
        assert(pieces(t) =~= seq![t]);
    }
}

/// A list is read as the components that it was made of, in order.
#[verifier::rlimit(50)]
pub proof fn law_list_reads_back(parts: Seq<Text>)
    requires
        parts.len() > 0,
        are_components(parts),
    ensures
        pieces(display::listed(parts)) == parts,
        separators(display::listed(parts)) == Seq::new((parts.len() - 1) as nat, |i: int| ','),
    decreases parts.len(),
{
    reveal_strlit(", ");
    assert(", "@ =~= seq![',', ' ']);
    let last = parts.last();
    assert(is_component(parts[parts.len() - 1]));
    lemma_pieces_one(last);
    lemma_no_separators(last);
    if parts.len() == 1 {
        assert(display::listed(parts) == last);
        assert(parts =~= seq![last]);
        assert(separators(last) =~= Seq::new(0, |i: int| ','));
    } else {
        let front = parts.drop_last();
        assert forall|i: int| 0 <= i < front.len() implies is_component(#[trigger] front[i]) by {
            assert(front[i] == parts[i]);
        }
        law_list_reads_back(front);
        let t = display::listed(front);
        assert(display::listed(parts) =~= t + seq![','] + (seq![' '] + last));
        lemma_pieces_part(t, ',', seq![' '] + last);
        lemma_pieces_lead(' ', last);
        assert(parts =~= front + seq![last]);
        lemma_separators(t, seq![',', ' '] + last);
        lemma_separators(seq![',', ' '], last);
        lemma_separators(seq![','], seq![' ']);
        lemma_separator(',');
        lemma_separator(' ');
        assert(display::listed(parts) =~= t + (seq![',', ' '] + last));
        assert(seq![','] + seq![' '] =~= seq![',', ' ']);
        assert(separators(display::listed(parts)) =~= Seq::new(
            (parts.len() - 1) as nat,
            |i: int| ',',
        ));
    }
}

proof fn lemma_separators(a: Text, b: Text)
    ensures
        separators(a + b) == separators(a) + separators(b),
    decreases b.len(),
{
    if b.len() == 0 {
        assert(a + b =~= a);
        assert(separators(a) + separators(b) =~= separators(a));
    } else {
        assert((a + b).drop_last() =~= a + b.drop_last());
        assert((a + b).last() == b.last());
        lemma_separators(a, b.drop_last());
        assert(separators(a + b) =~= separators(a) + separators(b));
    }
}

proof fn lemma_separator(c: char)
    ensures
        separators(seq![c]) == if is_separator(c) {
            seq![c]
        } else {
            Seq::empty()
        },
{
    reveal_with_fuel(separators, 2);
    assert(seq![c].drop_last() =~= Seq::<char>::empty());
    assert(seq![c].last() == c);
    assert(separators(seq![c]) =~= if is_separator(c) {
        seq![c]
    } else {
        Seq::empty()
    });
}

proof fn lemma_no_separators(t: Text)
    requires
        forall|i: int| 0 <= i < t.len() ==> !is_separator(#[trigger] t[i]),
    ensures
        separators(t) == Seq::<char>::empty(),
    decreases t.len(),
{
    if t.len() > 0 {
        let front = t.drop_last();
        assert forall|i: int| 0 <= i < front.len() implies !is_separator(#[trigger] front[i]) by {
            assert(front[i] == t[i]);
        }
        lemma_no_separators(front);
        assert(!is_separator(t[t.len() - 1]));
    }
}

/// Two lists with a bar between them are read as the components of both, and the bar stands
/// where the second starts.
#[verifier::rlimit(50)]
pub proof fn law_bar_stands_at_the_cut(parts: Seq<Text>, cut: int)
    requires
        0 < cut < parts.len(),
        are_components(parts),
    ensures
        pieces(display::barred(parts, cut)) == parts,
        separators(display::barred(parts, cut)) == Seq::new(
            (parts.len() - 1) as nat,
            |i: int|
                if i == cut - 1 {
                    '|'
                } else {
                    ','
                },
        ),
{
    reveal_strlit(" | ");
    assert(" | "@ =~= seq![' ', '|', ' ']);
    let (a, b) = (parts.take(cut), parts.skip(cut));
    assert forall|i: int| 0 <= i < a.len() implies is_component(#[trigger] a[i]) by {
        assert(a[i] == parts[i]);
    }
    assert forall|i: int| 0 <= i < b.len() implies is_component(#[trigger] b[i]) by {
        assert(b[i] == parts[cut + i]);
    }
    law_list_reads_back(a);
    law_list_reads_back(b);
    let (x, y) = (display::listed(a), display::listed(b));
    let t = display::barred(parts, cut);
    assert(t =~= x.push(' ') + seq!['|'] + (seq![' '] + y));
    lemma_pieces_part(x.push(' '), '|', seq![' '] + y);
    lemma_pieces_fill(x, ' ');
    lemma_pieces_lead(' ', y);
    assert(parts =~= a + b);
    lemma_separators(x.push(' ') + seq!['|'], seq![' '] + y);
    lemma_separators(x.push(' '), seq!['|']);
    lemma_separators(x, seq![' ']);
    lemma_separators(seq![' '], y);
    lemma_separator(' ');
    lemma_separator('|');
    assert(x.push(' ') =~= x + seq![' ']);
    assert(separators(t) =~= separators(x) + seq!['|'] + separators(y));
    assert(separators(t) =~= Seq::new(
        (parts.len() - 1) as nat,
        |i: int|
            if i == cut - 1 {
                '|'
            } else {
                ','
            },
    ));
}

// ---------------------------------------------------------------------------
// Values
// ---------------------------------------------------------------------------

/// The text of a value that holds `s`, which stands in some file.
pub open spec fn shows(file: Option<DomModel>, v: Variant, s: ShapeModel, t: Text) -> bool {
    variant::shape(v) == s && display::value_text(file, ValueModel::Leaf(v)) == t
}

/// A boolean is spelled out between brackets, behind the word of its kind.
pub proof fn law_boolean_is_spelled_out(file: Option<DomModel>, v: Variant, b: bool, t: Text)
    requires
        shows(file, v, ShapeModel::Bool(b), t),
    ensures
        head_of(t) == "Bool"@,
        body_of(t) == if b {
            "true"@
        } else {
            "false"@
        },
{
    reveal_strlit("Bool");
    reveal_strlit("Bool(true)");
    reveal_strlit("Bool(false)");
    reveal_strlit("true");
    reveal_strlit("false");
    reveal_strlit("(");
    reveal_strlit(")");
    let word = if b {
        "true"@
    } else {
        "false"@
    };
    assert(t =~= display::call("Bool"@, word));
    lemma_call("Bool"@, word);
}

/// Booleans that differ are shown by different texts, in whatever files they stand.
pub proof fn law_booleans_differ(
    file: Option<DomModel>,
    other: Option<DomModel>,
    v: Variant,
    w: Variant,
    a: bool,
    b: bool,
    t: Text,
)
    requires
        shows(file, v, ShapeModel::Bool(a), t),
        shows(other, w, ShapeModel::Bool(b), t),
    ensures
        a == b,
{
    law_boolean_is_spelled_out(file, v, a, t);
    law_boolean_is_spelled_out(other, w, b, t);
    reveal_strlit("true");
    reveal_strlit("false");
    assert("true"@.len() != "false"@.len());
}

/// The word of a kind of integers.
pub open spec fn integer_word(kind: IntegerKind) -> Text {
    match kind {
        IntegerKind::Int32 => seq!['I', 'n', 't', '3', '2'],
        IntegerKind::Int64 => seq!['I', 'n', 't', '6', '4'],
        IntegerKind::Enum => seq!['E', 'n', 'u', 'm'],
        IntegerKind::Vector2int16 => "Vector2int16"@,
        IntegerKind::Vector3int16 => "Vector3int16"@,
        IntegerKind::Color3uint8 => "Color3uint8"@,
        IntegerKind::Region3int16 => "Region3int16"@,
        IntegerKind::SecurityCapabilities => "SecurityCapabilities"@,
    }
}

proof fn lemma_integer_word(kind: IntegerKind)
    ensures
        display::integer_name(kind) == integer_word(kind),
        lacks(integer_word(kind), '('),
{
    reveal_strlit("Int32");
    reveal_strlit("Int64");
    reveal_strlit("Enum");
    reveal_strlit("Vector2int16");
    reveal_strlit("Vector3int16");
    reveal_strlit("Color3uint8");
    reveal_strlit("Region3int16");
    reveal_strlit("SecurityCapabilities");
    assert("Int32"@ =~= seq!['I', 'n', 't', '3', '2']);
    assert("Int64"@ =~= seq!['I', 'n', 't', '6', '4']);
    assert("Enum"@ =~= seq!['E', 'n', 'u', 'm']);
}

/// The integer that a text spells.
pub open spec fn integer_of(t: Text) -> int {
    if t.len() > 0 && t[0] == '-' {
        -number_of(t.skip(1), 10)
    } else {
        number_of(t, 10)
    }
}

/// Whether a text lists just so many components, with a bar behind the third where one
/// belongs there.
pub open spec fn is_list_of(t: Text, n: nat, bar: bool) -> bool {
    &&& pieces(t).len() == n
    &&& separators(t).len() == n - 1
    &&& forall|i: int|
        0 <= i < n - 1 ==> #[trigger] separators(t)[i] == if bar && i == 2 {
            '|'
        } else {
            ','
        }
}

proof fn lemma_decimal_component(n: int)
    ensures
        is_component(text::decimal(n)),
        integer_of(text::decimal(n)) == n,
{
    law_decimal_reads_back(n);
    let t = text::decimal(n);
    assert forall|i: int| 0 <= i < t.len() implies !is_separator(#[trigger] t[i]) && !is_filling(
        t[i],
    ) by {
        if n < 0 && i > 0 {
            assert(t[i] == t.skip(1)[i - 1]);
            assert('0' <= t.skip(1)[i - 1] <= '9');
        } else if n >= 0 {
            assert('0' <= t[i] <= '9');
        }
    }
    if n >= 0 {
        assert('0' <= t[0] <= '9');
    }
}

/// Integers are written behind the word of their kind, between brackets, in order; the two
/// corners of a region stand on the two sides of a bar.
pub proof fn law_integers_read_back(
    file: Option<DomModel>,
    v: Variant,
    kind: IntegerKind,
    n: Seq<i128>,
    t: Text,
)
    requires
        shows(file, v, ShapeModel::Integers(kind, n), t),
        n.len() > 0,
        kind is Region3int16 ==> n.len() > 3,
    ensures
        head_of(t) == integer_word(kind),
        is_list_of(body_of(t), n.len(), kind is Region3int16),
        forall|i: int|
            0 <= i < n.len() ==> integer_of(#[trigger] pieces(body_of(t))[i]) == n[i],
{
    let parts = display::decimals(n);
    assert forall|i: int| 0 <= i < parts.len() implies is_component(#[trigger] parts[i])
        && integer_of(parts[i]) == n[i] by {
        lemma_decimal_component(n[i] as int);
    }
    lemma_integer_word(kind);
    if kind is Region3int16 {
        lemma_call(integer_word(kind), display::barred(parts, 3));
        law_bar_stands_at_the_cut(parts, 3);
    } else {
        lemma_call(integer_word(kind), display::listed(parts));
        law_list_reads_back(parts);
    }
}

/// Integers that differ are shown by different texts, as are integers of different kinds.
#[verifier::rlimit(50)]
pub proof fn law_integers_differ(
    file: Option<DomModel>,
    other: Option<DomModel>,
    v: Variant,
    w: Variant,
    kind: IntegerKind,
    other_kind: IntegerKind,
    n: Seq<i128>,
    m: Seq<i128>,
    t: Text,
)
    requires
        shows(file, v, ShapeModel::Integers(kind, n), t),
        shows(other, w, ShapeModel::Integers(other_kind, m), t),
        n.len() > 0,
        m.len() > 0,
        kind is Region3int16 ==> n.len() > 3,
        other_kind is Region3int16 ==> m.len() > 3,
    ensures
        kind == other_kind,
        n == m,
{
    law_integers_read_back(file, v, kind, n, t);
    law_integers_read_back(other, w, other_kind, m, t);
    assert forall|i: int| 0 <= i < n.len() implies n[i] == m[i] by {
        assert(integer_of(pieces(body_of(t))[i]) == n[i]);
        assert(integer_of(pieces(body_of(t))[i]) == m[i]);
    }
    assert(n =~= m);
    reveal_strlit("Vector2int16");
    reveal_strlit("Vector3int16");
    reveal_strlit("Color3uint8");
    reveal_strlit("Region3int16");
    reveal_strlit("SecurityCapabilities");
    let (x, y) = (integer_word(kind), integer_word(other_kind));
    assert(x.len() == y.len());
    assert(x[0] == y[0]);
    assert(x.len() == 5 ==> x[3] == y[3]);
    assert(x.len() == 12 ==> x[6] == y[6]);
}

/// The word of a kind of floating-point numbers.
pub open spec fn number_word(kind: NumberKind) -> Text {
    match kind {
        NumberKind::Vector2 => "Vector2"@,
        NumberKind::Vector3 => "Vector3"@,
        NumberKind::CFrame => "CFrame"@,
        NumberKind::OptionalCFrame => "OptionalCFrame"@,
        NumberKind::Color3 => "Color3"@,
        NumberKind::NumberRange => "NumberRange"@,
        NumberKind::Rect => "Rect"@,
        NumberKind::Region3 => "Region3"@,
        NumberKind::Ray => "Ray"@,
        NumberKind::PhysicalProperties => "PhysicalProperties"@,
    }
}

/// Whether a bar parts the first three components from the others.
pub open spec fn has_bar(kind: NumberKind) -> bool {
    kind is CFrame || kind is OptionalCFrame || kind is Region3 || kind is Ray
}

proof fn lemma_number_words()
    ensures
        forall|kind: NumberKind| lacks(#[trigger] number_word(kind), '('),
{
    reveal_strlit("Vector2");
    reveal_strlit("Vector3");
    reveal_strlit("CFrame");
    reveal_strlit("OptionalCFrame");
    reveal_strlit("Color3");
    reveal_strlit("NumberRange");
    reveal_strlit("Rect");
    reveal_strlit("Region3");
    reveal_strlit("Ray");
    reveal_strlit("PhysicalProperties");
}

/// Floating-point numbers are written behind the word of their kind, between brackets, in
/// order, with a bar behind the third where a kind has one. An optional frame holds the
/// text of the frame.
#[verifier::rlimit(50)]
pub proof fn law_numbers_read_back(
    file: Option<DomModel>,
    v: Variant,
    kind: NumberKind,
    parts: Seq<Text>,
    t: Text,
)
    requires
        shows(file, v, ShapeModel::Numbers(kind, parts), t),
        are_components(parts),
        parts.len() > 0,
        has_bar(kind) ==> parts.len() > 3,
    ensures
        head_of(t) == number_word(kind),
        kind is OptionalCFrame ==> {
            &&& head_of(body_of(t)) == "CFrame"@
            &&& pieces(body_of(body_of(t))) == parts
            &&& is_list_of(body_of(body_of(t)), parts.len(), true)
        },
        !(kind is OptionalCFrame) ==> {
            &&& pieces(body_of(t)) == parts
            &&& is_list_of(body_of(t), parts.len(), has_bar(kind))
        },
{
    lemma_number_words();
    let word = number_word(kind);
    assert(lacks(word, '('));
    assert(lacks(number_word(NumberKind::CFrame), '('));
    if has_bar(kind) {
        let list = display::barred(parts, 3);
        lemma_barred_list(parts);
        if kind is OptionalCFrame {
            let frame = display::call("CFrame"@, list);
            assert(display::frame_text(parts) == frame);
            assert(t == display::call(word, frame));
            lemma_call(word, frame);
            lemma_call("CFrame"@, list);
        } else {
            assert(t == display::call(word, list));
            lemma_call(word, list);
        }
    } else {
        let list = display::listed(parts);
        lemma_plain_list(parts);
        assert(t == display::call(word, list));
        lemma_call(word, list);
    }
}

proof fn lemma_barred_list(parts: Seq<Text>)
    requires
        parts.len() > 3,
        are_components(parts),
    ensures
        pieces(display::barred(parts, 3)) == parts,
        is_list_of(display::barred(parts, 3), parts.len(), true),
{
    law_bar_stands_at_the_cut(parts, 3);
}

/// An optional frame that is absent and physical properties at their defaults say so.
#[verifier::rlimit(50)]
pub proof fn law_absent_numbers_say_so(
    file: Option<DomModel>,
    v: Variant,
    kind: NumberKind,
    t: Text,
)
    requires
        shows(file, v, ShapeModel::Numbers(kind, Seq::empty()), t),
        kind is OptionalCFrame || kind is PhysicalProperties,
    ensures
        head_of(t) == number_word(kind),
        kind is OptionalCFrame ==> body_of(t) == "none"@,
        kind is PhysicalProperties ==> body_of(t) == "Default"@,
{
    reveal_strlit("OptionalCFrame(none)");
    reveal_strlit("OptionalCFrame");
    reveal_strlit("none");
    reveal_strlit("PhysicalProperties(Default)");
    reveal_strlit("PhysicalProperties");
    reveal_strlit("Default");
    reveal_strlit("(");
    reveal_strlit(")");
    let word = if kind is OptionalCFrame {
        "none"@
    } else {
        "Default"@
    };
    assert(t =~= display::call(number_word(kind), word));
    lemma_call(number_word(kind), word);
}

/// A floating-point number is written between brackets, behind the word of its width.
pub proof fn law_float_reads_back(
    file: Option<DomModel>,
    v: Variant,
    bits: u32,
    wide: u64,
    s: Text,
    t: Text,
)
    requires
        shows(file, v, ShapeModel::Float32(bits, s), t) || shows(
            file,
            v,
            ShapeModel::Float64(wide, s),
            t,
        ),
    ensures
        head_of(t) == if variant::shape(v) is Float32 {
            "Float32"@
        } else {
            "Float64"@
        },
        body_of(t) == s,
{
    reveal_strlit("Float32");
    reveal_strlit("Float64");
    lemma_call("Float32"@, s);
    lemma_call("Float64"@, s);
}

proof fn lemma_flattened(dims: Seq<(Text, i32)>)
    requires
        forall|i: int| 0 <= i < dims.len() ==> is_component((#[trigger] dims[i]).0),
    ensures
        display::flattened(dims).len() == 2 * dims.len(),
        are_components(display::flattened(dims)),
        forall|i: int|
            0 <= i < dims.len() ==> display::flattened(dims)[2 * i] == (#[trigger] dims[i]).0
                && display::flattened(dims)[2 * i + 1] == text::decimal(dims[i].1 as int),
    decreases dims.len(),
{
    if dims.len() > 0 {
        let front = dims.drop_last();
        assert forall|i: int| 0 <= i < front.len() implies is_component(
            (#[trigger] front[i]).0,
        ) by {
            assert(front[i] == dims[i]);
        }
        lemma_flattened(front);
        let (old_parts, parts) = (display::flattened(front), display::flattened(dims));
        let last = dims[dims.len() - 1];
        assert(is_component(last.0));
        lemma_decimal_component(last.1 as int);
        assert(parts == old_parts.push(last.0).push(text::decimal(last.1 as int)));
        assert forall|i: int| 0 <= i < parts.len() implies is_component(#[trigger] parts[i]) by {
            if i < old_parts.len() {
                assert(parts[i] == old_parts[i]);
            }
        }
        assert forall|i: int| 0 <= i < dims.len() implies parts[2 * i] == (#[trigger] dims[i]).0
            && parts[2 * i + 1] == text::decimal(dims[i].1 as int) by {
            if i < front.len() {
                assert(front[i] == dims[i]);
            }
        }
    }
}

/// The scales and the offsets of a dimension are written in turn, and the word says
/// whether it is one dimension or more.
#[verifier::rlimit(50)]
pub proof fn law_dimensions_read_back(
    file: Option<DomModel>,
    v: Variant,
    dims: Seq<(Text, i32)>,
    t: Text,
)
    requires
        shows(file, v, ShapeModel::Dims(dims), t),
        dims.len() > 0,
        forall|i: int| 0 <= i < dims.len() ==> is_component((#[trigger] dims[i]).0),
    ensures
        head_of(t) == if dims.len() == 1 {
            "UDim"@
        } else {
            "UDim2"@
        },
        is_list_of(body_of(t), 2 * dims.len(), false),
        forall|i: int|
            0 <= i < dims.len() ==> pieces(body_of(t))[2 * i] == (#[trigger] dims[i]).0
                && integer_of(pieces(body_of(t))[2 * i + 1]) == dims[i].1,
{
    let parts = display::flattened(dims);
    let word = if dims.len() == 1 {
        "UDim"@
    } else {
        "UDim2"@
    };
    assert(t == display::call(word, display::listed(parts)));
    assert(lacks(word, '(')) by {
        reveal_strlit("UDim");
        reveal_strlit("UDim2");
    }
    lemma_flattened(dims);
    lemma_call(word, display::listed(parts));
    lemma_plain_list(parts);
    assert forall|i: int| 0 <= i < dims.len() implies pieces(body_of(t))[2 * i] == (
    #[trigger] dims[i]).0 && integer_of(pieces(body_of(t))[2 * i + 1]) == dims[i].1 by {
        lemma_decimal_component(dims[i].1 as int);
    }
}

proof fn lemma_plain_list(parts: Seq<Text>)
    requires
        parts.len() > 0,
        are_components(parts),
    ensures
        pieces(display::listed(parts)) == parts,
        is_list_of(display::listed(parts), parts.len(), false),
{
    law_list_reads_back(parts);
}

/// One list behind another, with a comma between them where both hold something.
proof fn lemma_one_more(parts: Seq<Text>, part: Text)
    ensures
        display::listed(parts.push(part)) == if parts.len() == 0 {
            part
        } else {
            display::listed(parts) + ", "@ + part
        },
{
    assert(parts.push(part).drop_last() =~= parts);
}

/// What stands before the last `n` characters.
pub open spec fn without_end(t: Text, n: int) -> Text {
    t.take(t.len() - n)
}

/// No tags are an empty pair of brackets, and each tag more stands quoted at the end of
/// the list, behind a comma where it is not the first.
#[verifier::rlimit(50)]
pub proof fn law_tags_are_listed(
    file: Option<DomModel>,
    v: Variant,
    w: Variant,
    tags: Seq<Text>,
    tag: Text,
    t: Text,
    u: Text,
)
    requires
        shows(file, v, ShapeModel::Tags(tags), t),
        shows(file, w, ShapeModel::Tags(tags.push(tag)), u),
    ensures
        tags.len() == 0 ==> t == seq!['[', ']'] && u == seq!['['] + text::quoted(tag) + seq![']'],
        tags.len() > 0 ==> u == without_end(t, 1) + seq![',', ' '] + text::quoted(tag) + seq![']'],
{
    reveal_strlit("[");
    reveal_strlit("]");
    reveal_strlit(", ");
    let f = |x: Text| text::quoted(x);
    let parts = tags.map_values(f);
    assert(tags.push(tag).map_values(f) =~= parts.push(text::quoted(tag)));
    lemma_one_more(parts, text::quoted(tag));
    if tags.len() == 0 {
        assert(parts =~= Seq::empty());
        assert(t =~= seq!['[', ']']);
        assert(u =~= seq!['['] + text::quoted(tag) + seq![']']);
    } else {
        assert(without_end(t, 1) =~= seq!['['] + display::listed(parts));
        assert(u =~= without_end(t, 1) + seq![',', ' '] + text::quoted(tag) + seq![']']);
    }
}

/// The word of a kind of keypoints.
pub open spec fn sequence_word(kind: SequenceKind) -> Text {
    match kind {
        SequenceKind::Number => "NumberSequence"@,
        SequenceKind::Color => "ColorSequence"@,
    }
}

#[verifier::rlimit(50)]
proof fn lemma_keypoints(kind: SequenceKind, points: Seq<Seq<Text>>)
    ensures
        ({
            let t = display::keypoints_text(kind, points);
            &&& head_of(t) == sequence_word(kind)
            &&& body_of(t) == seq!['['] + display::listed(display::keypoint_texts(points)) + seq![
                ']',
            ]
        }),
{
    reveal_strlit("NumberSequence([");
    reveal_strlit("ColorSequence([");
    reveal_strlit("NumberSequence");
    reveal_strlit("ColorSequence");
    reveal_strlit("])");
    reveal_strlit("(");
    reveal_strlit(")");
    let name = sequence_word(kind);
    let a = display::listed(display::keypoint_texts(points));
    let inner = seq!['['] + a + seq![']'];
    assert("NumberSequence(["@ =~= "NumberSequence"@ + seq!['(', '[']);
    assert("ColorSequence(["@ =~= "ColorSequence"@ + seq!['(', '[']);
    assert("])"@ =~= seq![']', ')']);
    assert("("@ =~= seq!['(']);
    assert(")"@ =~= seq![')']);
    assert(display::keypoints_text(kind, points) =~= display::call(name, inner));
    lemma_call(name, inner);
}

/// Each keypoint more stands at the end of the list, its numbers in order between brackets
/// of its own; the word before the list says which sequence it is.
#[verifier::rlimit(50)]
pub proof fn law_keypoints_are_listed(
    file: Option<DomModel>,
    v: Variant,
    w: Variant,
    kind: SequenceKind,
    points: Seq<Seq<Text>>,
    point: Seq<Text>,
    t: Text,
    u: Text,
)
    requires
        shows(file, v, ShapeModel::Keypoints(kind, points), t),
        shows(file, w, ShapeModel::Keypoints(kind, points.push(point)), u),
        point.len() > 0,
        are_components(point),
    ensures
        head_of(t) == sequence_word(kind),
        head_of(u) == sequence_word(kind),
        points.len() == 0 ==> body_of(t) == seq!['[', ']'],
        exists|p: Text|
            {
                &&& #[trigger] pieces(p) == point
                &&& is_list_of(p, point.len(), false)
                &&& points.len() == 0 ==> body_of(u) == seq!['[', '('] + p + seq![')', ']']
                &&& points.len() > 0 ==> body_of(u) == without_end(body_of(t), 1) + seq![
                    ',',
                    ' ',
                    '(',
                ] + p + seq![')', ']']
            },
{
    lemma_keypoints(kind, points);
    lemma_keypoints(kind, points.push(point));
    let p = display::listed(point);
    lemma_plain_list(point);
    let part = "("@ + p + ")"@;
    let parts = display::keypoint_texts(points);
    let more = display::keypoint_texts(points.push(point));
    assert(more =~= parts.push(part));
    lemma_one_more(parts, part);
    lemma_one_keypoint(display::listed(parts), p);
    if points.len() == 0 {
        assert(parts =~= Seq::empty());
        assert(display::listed(parts) =~= Seq::empty());
        assert(body_of(t) =~= seq!['[', ']']);
    }
    assert(pieces(p) == point);
}

/// A keypoint behind others.
proof fn lemma_one_keypoint(a: Text, p: Text)
    ensures
        seq!['['] + ("("@ + p + ")"@) + seq![']'] == seq!['[', '('] + p + seq![')', ']'],
        seq!['['] + (a + ", "@ + ("("@ + p + ")"@)) + seq![']'] == without_end(
            seq!['['] + a + seq![']'],
            1,
        ) + seq![',', ' ', '('] + p + seq![')', ']'],
{
    reveal_strlit("(");
    reveal_strlit(")");
    reveal_strlit(", ");
    assert("("@ =~= seq!['(']);
    assert(")"@ =~= seq![')']);
    assert(", "@ =~= seq![',', ' ']);
    assert(without_end(seq!['['] + a + seq![']'], 1) =~= seq!['['] + a);
    assert(seq!['['] + ("("@ + p + ")"@) + seq![']'] =~= seq!['[', '('] + p + seq![')', ']']);
    assert(seq!['['] + (a + ", "@ + ("("@ + p + ")"@)) + seq![']'] =~= seq!['['] + a + seq![
        ',',
        ' ',
        '(',
    ] + p + seq![')', ']']);
}

/// The word of a kind of bytes.
pub open spec fn bytes_word(kind: BytesKind) -> Text {
    match kind {
        BytesKind::BinaryString => "BinaryString"@,
        BytesKind::SharedString => "SharedString"@,
        BytesKind::NetAssetRef => "NetAssetRef"@,
    }
}

/// Bytes are shown by the word of their kind, by how many they are and by their hash.
pub proof fn law_bytes_are_summed_up(
    file: Option<DomModel>,
    v: Variant,
    kind: BytesKind,
    bytes: Seq<u8>,
    t: Text,
)
    requires
        shows(file, v, ShapeModel::Bytes(kind, bytes), t),
    ensures
        head_of(t) == bytes_word(kind),
        until(body_of(t), '=') == "len"@,
        integer_of(until(body_of(t).skip(4), ' ')) == bytes.len(),
        body_of(t).skip(4 + until(body_of(t).skip(4), ' ').len() as int) == " blake3="@
            + display::blake3_hex(bytes),
{
    let s = display::bytes_summary_text(bytes);
    assert(lacks(bytes_word(kind), '(')) by {
        reveal_strlit("BinaryString");
        reveal_strlit("SharedString");
        reveal_strlit("NetAssetRef");
    }
    assert(t == display::call(bytes_word(kind), s));
    lemma_call(bytes_word(kind), s);
    lemma_summary(bytes);
}

#[verifier::rlimit(50)]
proof fn lemma_summary(bytes: Seq<u8>)
    ensures
        ({
            let s = display::bytes_summary_text(bytes);
            let n = until(s.skip(4), ' ');
            &&& until(s, '=') == "len"@
            &&& integer_of(n) == bytes.len()
            &&& s.skip(4 + n.len() as int) == " blake3="@ + display::blake3_hex(bytes)
        }),
{
    reveal_strlit("len=");
    reveal_strlit("len");
    reveal_strlit(" blake3=");
    let s = display::bytes_summary_text(bytes);
    let n = text::decimal(bytes.len() as int);
    let hash = display::blake3_hex(bytes);
    let rest = " blake3="@.skip(1) + hash;
    lemma_decimal_component(bytes.len() as int);
    assert("len="@ =~= "len"@ + seq!['=']);
    assert(" blake3="@ =~= seq![' '] + " blake3="@.skip(1));
    assert(s =~= "len"@ + seq!['='] + (n + seq![' '] + rest));
    lemma_until("len"@, n + seq![' '] + rest, '=');
    assert forall|i: int| 0 <= i < n.len() implies #[trigger] n[i] != ' ' by {
        assert(!is_filling(n[i]));
    }
    lemma_until(n, rest, ' ');
    assert(s.skip(4) =~= n + seq![' '] + rest);
    assert(s.skip(4 + n.len() as int) =~= seq![' '] + rest);
    assert(" blake3="@ + hash =~= seq![' '] + rest);
}

/// A string is shown quoted, and a resource by the quoted place that it is at; one that is
/// absent and one of an unknown kind are told apart from every place and from each other.
#[verifier::rlimit(50)]
pub proof fn law_strings_and_content_are_quoted(
    file: Option<DomModel>,
    v: Variant,
    s: Text,
    t: Text,
)
    ensures
        shows(file, v, ShapeModel::Text(s), t) ==> t == text::quoted(s),
        shows(file, v, ShapeModel::Uri(s), t) ==> t.take(8) == "content "@ && t.skip(8)
            == text::quoted(s),
        shows(file, v, ShapeModel::NoContent, t) ==> t.take(8) == "content "@ && t.skip(8)
            == "none"@,
        shows(file, v, ShapeModel::UnknownContent, t) ==> t.take(8) == "content "@ && t.skip(8)
            == "<unknown>"@,
        variant::shape(v) is UniqueId || variant::shape(v) is Other ==> display::value_text(
            file,
            ValueModel::Leaf(v),
        ) == variant::debug_text(v),
{
    reveal_strlit("content ");
    reveal_strlit("content none");
    reveal_strlit("content <unknown>");
    reveal_strlit("none");
    reveal_strlit("<unknown>");
    if shows(file, v, ShapeModel::Uri(s), t) {
        assert(t.take(8) =~= "content "@);
        assert(t.skip(8) =~= text::quoted(s));
    }
    assert("content none"@.take(8) =~= "content "@);
    assert("content none"@.skip(8) =~= "none"@);
    assert("content <unknown>"@.take(8) =~= "content "@);
    assert("content <unknown>"@.skip(8) =~= "<unknown>"@);
}

/// A reference is shown by the path of the instance that it leads to in its file. One that
/// leads nowhere is `nil` where it is nil, and external where the file holds no such
/// instance or there is no file.
pub proof fn law_reference_shows_its_target(d: DomModel, r: u128, i: int)
    requires
        semantic::dom_wf(d),
    ensures
        display::value_text(Some(d), ValueModel::Object(r)) == display::value_text(
            Some(d),
            ValueModel::Ref(r),
        ),
        r == 0 ==> display::value_text(Some(d), ValueModel::Ref(r)) == "→ nil"@,
        r != 0 && 0 <= i < d.len() && d[i].source_ref == r ==> display::value_text(
            Some(d),
            ValueModel::Ref(r),
        ) == "→ "@ + semantic::dom_path(d, i),
        r != 0 && (forall|k: int| 0 <= k < d.len() ==> (#[trigger] d[k]).source_ref != r)
            ==> display::value_text(Some(d), ValueModel::Ref(r)) == "→ <external>"@,
        r != 0 ==> display::value_text(None, ValueModel::Ref(r)) == "→ <external>"@,
        display::value_text(None, ValueModel::Ref(0)) == "→ nil"@,
{
    if 0 <= i < d.len() && d[i].source_ref == r {
        semantic::lemma_node_of_ref(d, i);
    }
}

/// The path of an instance is that of its parent and its name behind a dot; under the root
/// it is the name alone, and the root has a path of its own.
pub proof fn law_path_goes_by_names(d: DomModel, i: int)
    requires
        semantic::dom_wf(d),
        0 <= i < d.len(),
    ensures
        i == 0 ==> semantic::dom_path(d, i) == "<root>"@,
        i > 0 && d[i].parent == Some(0usize) ==> semantic::dom_path(d, i) == d[i].name,
        i > 0 && d[i].parent != Some(0usize) ==> d[i].parent is Some && semantic::dom_path(d, i)
            == semantic::dom_path(d, d[i].parent->0 as int) + seq!['.'] + d[i].name,
{
    reveal_strlit(".");
    assert("."@ =~= seq!['.']);
    if i > 0 {
        matching::lemma_is_child(d, i);
        let p = d[i].parent->0 as int;
        let names = semantic::path_names(d, p);
        assert(semantic::path_names(d, i) == names.push(d[i].name));
        assert(names.push(d[i].name).drop_last() =~= names);
        if p == 0 {
            assert(names.len() == 0);
        } else {
            matching::lemma_is_child(d, p);
            assert(names.len() > 0);
        }
    }
}

/// An attribute map without entries is an empty pair of braces. Each entry more stands at
/// the end, behind a comma where it is not the first: its name, a colon and its text.
pub proof fn law_attributes_are_listed(
    file: Option<DomModel>,
    list: Seq<(Text, ValueModel)>,
    key: Text,
    v: ValueModel,
)
    ensures
        ({
            let t = display::value_text(file, ValueModel::Attributes(list));
            let u = display::value_text(file, ValueModel::Attributes(list.push((key, v))));
            let entry = key + seq![':', ' '] + display::value_text(file, v);
            &&& list.len() == 0 ==> t == seq!['{', '}'] && u == seq!['{'] + entry + seq!['}']
            &&& list.len() > 0 ==> u == without_end(t, 1) + seq![',', ' '] + entry + seq!['}']
        }),
{
    reveal_strlit("{");
    reveal_strlit("}");
    reveal_strlit(": ");
    reveal_strlit(", ");
    let t = display::value_text(file, ValueModel::Attributes(list));
    let u = display::value_text(file, ValueModel::Attributes(list.push((key, v))));
    let entry = key + seq![':', ' '] + display::value_text(file, v);
    let parts = display::entry_texts(file, list);
    assert(list.push((key, v)).drop_last() =~= list);
    assert(entry =~= key + ": "@ + display::value_text(file, v));
    assert(display::entry_texts(file, list.push((key, v))) == parts.push(entry));
    lemma_one_more(parts, entry);
    lemma_entry_count(file, list);
    if list.len() == 0 {
        assert(t =~= seq!['{', '}']);
        assert(u =~= seq!['{'] + entry + seq!['}']);
    } else {
        assert(without_end(t, 1) =~= seq!['{'] + display::listed(parts));
        assert(u =~= without_end(t, 1) + seq![',', ' '] + entry + seq!['}']);
    }
}

proof fn lemma_entry_count(file: Option<DomModel>, list: Seq<(Text, ValueModel)>)
    ensures
        display::entry_texts(file, list).len() == list.len(),
    decreases list.len(),
{
    if list.len() > 0 {
        lemma_entry_count(file, list.drop_last());
    }
}

} // verus!
