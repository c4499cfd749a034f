//! How referents stand in a binary file: as differences, with the sign in the lowest bit,
//! four planes of bytes with the highest first.

use vstd::prelude::*;

use crate::chunks;

verus! {

/// A difference with its sign in the lowest bit.
pub open spec fn folded(d: int) -> int {
    if d >= 0 {
        2 * d
    } else {
        -2 * d - 1
    }
}

/// A byte of a number, the highest first.
pub open spec fn byte_of(u: int, k: int) -> int {
    if k == 0 {
        u / 16777216
    } else if k == 1 {
        (u / 65536) % 256
    } else if k == 2 {
        (u / 256) % 256
    } else {
        u % 256
    }
}

/// How far a referent is from the one before it.
pub open spec fn difference(list: Seq<i32>, i: int) -> int {
    list[i] - (if i == 0 {
        0
    } else {
        list[i - 1] as int
    })
}

/// Whether bytes hold a list of referents from a place on.
pub open spec fn holds_referents(s: Seq<u8>, p: int, list: Seq<i32>) -> bool {
    let n = list.len() as int;
    &&& 0 <= p
    &&& p + 4 * n <= s.len()
    &&& forall|i: int|
        0 <= i < n ==> {
            let u = folded(#[trigger] difference(list, i));
            &&& u < 0x1_0000_0000
            &&& s[p + i] == byte_of(u, 0)
            &&& s[p + n + i] == byte_of(u, 1)
            &&& s[p + 2 * n + i] == byte_of(u, 2)
            &&& s[p + 3 * n + i] == byte_of(u, 3)
        }
}

proof fn lemma_folded(d: int)
    ensures
        chunks::signed(folded(d)) == d,
{
}

proof fn lemma_bytes(u: int)
    requires
        0 <= u < 0x1_0000_0000,
    ensures
        16777216 * byte_of(u, 0) + 65536 * byte_of(u, 1) + 256 * byte_of(u, 2) + byte_of(u, 3)
            == u,
{
    assert(u == (u / 256) * 256 + u % 256);
    let v = u / 256;
    assert(v == (v / 256) * 256 + v % 256);
    let w = v / 256;
    assert(w == (w / 256) * 256 + w % 256);
    assert(u / 65536 == w);
    assert(u / 16777216 == w / 256);
    assert(w / 256 < 256);
}

proof fn lemma_running(s: Seq<u8>, p: int, list: Seq<i32>, k: int)
    requires
        holds_referents(s, p, list),
        0 <= k <= list.len(),
    ensures
        chunks::running(s, p, list.len() as int, k) == if k == 0 {
            0
        } else {
            list[k - 1] as int
        },
    decreases k,
{
    if k > 0 {
        lemma_running(s, p, list, k - 1);
        let d = difference(list, k - 1);
        lemma_folded(d);
        lemma_bytes(folded(d));
        assert(chunks::interleaved(s, p, list.len() as int, k - 1) == folded(d));
    }
}

/// The referents that were noted down are read back.
pub proof fn law_referents_read_back(s: Seq<u8>, p: int, list: Seq<i32>)
    requires
        holds_referents(s, p, list),
    ensures
        chunks::sums_fit(s, p, list.len() as int),
        chunks::referents(s, p, list.len() as int) == list,
{
    let n = list.len() as int;
    assert forall|k: int| 0 <= k <= n implies i32::MIN <= #[trigger] chunks::running(s, p, n, k)
        <= i32::MAX by {
        lemma_running(s, p, list, k);
    }
    assert forall|i: int| 0 <= i < n implies chunks::referents(s, p, n)[i] == list[i] by {
        lemma_running(s, p, list, i + 1);
    }
    assert(chunks::referents(s, p, n) =~= list);
}

/// A number of four bytes has the lowest first.
pub proof fn law_numbers_have_the_lowest_byte_first(s: Seq<u8>, p: int, u: u32)
    requires
        0 <= p,
        p + 4 <= s.len(),
        forall|k: int| 0 <= k < 4 ==> s[p + 3 - k] == #[trigger] byte_of(u as int, k),
    ensures
        chunks::le(s, p) == u,
{
    lemma_bytes(u as int);
    assert(s[p + 3 - 0] == byte_of(u as int, 0));
    assert(s[p + 3 - 1] == byte_of(u as int, 1));
    assert(s[p + 3 - 2] == byte_of(u as int, 2));
    assert(s[p + 3 - 3] == byte_of(u as int, 3));
}

} // verus!
