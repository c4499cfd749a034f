//! The layout of a binary file, as far as its reader relies on it without looking: the
//! sizes of chunks, the referents of instances, and the counts in contents.

use std::collections::{HashMap, HashSet};

use rbx_reflection::ReflectionDatabase;
use vstd::prelude::*;
use vstd::slice::{slice_subrange, slice_to_vec};

use crate::database;
use crate::database::skips_property;
use crate::dom;
use crate::matching::Classes;

verus! {

broadcast use vstd::std_specs::hash::group_hash_axioms;

// ---------------------------------------------------------------------------
// Numbers
// ---------------------------------------------------------------------------

/// The number in four bytes, the lowest first.
pub open spec fn le(s: Seq<u8>, p: int) -> int {
    s[p] + 256 * s[p + 1] + 65536 * s[p + 2] + 16777216 * s[p + 3]
}

fn read_le(s: &[u8], p: usize) -> (res: u32)
    requires
        p + 4 <= s@.len(),
    ensures
        res == le(s@, p as int),
{
    let low: u32 = (s[p] as u32) + 256 * (s[p + 1] as u32);
    low + 65536 * (s[p + 2] as u32) + 16777216 * (s[p + 3] as u32)
}

/// The bytes of number `i` of `n` that are interleaved from `p` on, the highest first.
pub open spec fn interleaved(s: Seq<u8>, p: int, n: int, i: int) -> int {
    16777216 * s[p + i] + 65536 * s[p + n + i] + 256 * s[p + 2 * n + i] + s[p + 3 * n + i]
}

fn read_interleaved(s: &[u8], p: usize, n: usize, i: usize) -> (res: u32)
    requires
        p + 4 * n <= s@.len(),
        i < n,
    ensures
        res == interleaved(s@, p as int, n as int, i as int),
{
    let _len: usize = s.len();
    let high: u32 = 16777216 * (s[p + i] as u32) + 65536 * (s[p + n + i] as u32);
    high + 256 * (s[p + 2 * n + i] as u32) + (s[p + 3 * n + i] as u32)
}

/// A signed number whose sign stands in the lowest bit.
pub open spec fn signed(u: int) -> int {
    if u % 2 == 0 {
        u / 2
    } else {
        -(u / 2) - 1
    }
}

fn to_signed(u: u32) -> (res: i32)
    ensures
        res == signed(u as int),
{
    let half: i32 = (u / 2) as i32;
    if u % 2 == 0 {
        half
    } else {
        -half - 1
    }
}

/// The sum of the first `k` of `n` signed numbers that are interleaved from `p` on.
pub open spec fn running(s: Seq<u8>, p: int, n: int, k: int) -> int
    decreases k,
{
    if k <= 0 {
        0
    } else {
        running(s, p, n, k - 1) + signed(interleaved(s, p, n, k - 1))
    }
}

/// Whether no sum leaves the range of a referent.
pub open spec fn sums_fit(s: Seq<u8>, p: int, n: int) -> bool {
    forall|k: int| 0 <= k <= n ==> i32::MIN <= #[trigger] running(s, p, n, k) <= i32::MAX
}

/// A list of referents: each is noted down by how far it is from the one before.
pub open spec fn referents(s: Seq<u8>, p: int, n: int) -> Seq<i32> {
    Seq::new(n as nat, |i: int| running(s, p, n, i + 1) as i32)
}

fn read_referents(s: &[u8], p: usize, n: usize) -> (res: Option<Vec<i32>>)
    requires
        p + 4 * n <= s@.len(),
    ensures
        match res {
            Some(list) => sums_fit(s@, p as int, n as int) && list@ == referents(
                s@,
                p as int,
                n as int,
            ),
            None => !sums_fit(s@, p as int, n as int),
        },
{
    let mut list: Vec<i32> = Vec::new();
    let mut sum: i32 = 0;
    let mut i: usize = 0;
    while i < n
        invariant
            i <= n,
            p + 4 * n <= s@.len(),
            sum == running(s@, p as int, n as int, i as int),
            list@.len() == i,
            forall|k: int|
                0 <= k <= i ==> i32::MIN <= #[trigger] running(s@, p as int, n as int, k)
                    <= i32::MAX,
            forall|k: int|
                0 <= k < i ==> #[trigger] list@[k] == running(s@, p as int, n as int, k + 1),
        decreases n - i,
    {
        let delta: i32 = to_signed(read_interleaved(s, p, n, i));
        let wide: i64 = (sum as i64) + (delta as i64);
        assert(wide == running(s@, p as int, n as int, i + 1));
        if wide < -2147483648 || wide > 2147483647 {
            return None;
        }
        sum = wide as i32;
        list.push(sum);
        i += 1;
    }
    assert(list@ =~= referents(s@, p as int, n as int));
    Some(list)
}

// ---------------------------------------------------------------------------
// Compression
// ---------------------------------------------------------------------------

/// What LZ4 data of at most that size unpacks to.
pub uninterp spec fn lz4_plain(packed: Seq<u8>, size: nat) -> Option<Seq<u8>>;

/// What Zstandard data of at most that size unpacks to.
pub uninterp spec fn zstd_plain(packed: Seq<u8>, size: nat) -> Option<Seq<u8>>;

pub open spec fn bytes_view(bytes: Option<Vec<u8>>) -> Option<Seq<u8>> {
    match bytes {
        Some(list) => Some(list@),
        None => None,
    }
}

/// Unpacks LZ4 data.
///
/// Trusted: `lz4_flex::block::decompress`. The outcome depends on the data and the
/// size alone; data that is malformed, or larger than the size, is refused. What the
/// data unpacks to is left unsaid.
#[verifier::external_body]
fn unpack_lz4(packed: &[u8], size: usize) -> (res: Option<Vec<u8>>)
    ensures
        bytes_view(res) == lz4_plain(packed@, size as nat),
{
    lz4_flex::block::decompress(packed, size).ok()
}

/// Unpacks Zstandard data.
///
/// Trusted: `zstd::bulk::decompress`. The outcome depends on the data and the size
/// alone; data that is malformed, or larger than the size, is refused. What the data
/// unpacks to is left unsaid.
#[verifier::external_body]
fn unpack_zstd(packed: &[u8], size: usize) -> (res: Option<Vec<u8>>)
    ensures
        bytes_view(res) == zstd_plain(packed@, size as nat),
{
    zstd::bulk::decompress(packed, size).ok()
}

/// Whether four bytes or more start with the mark of Zstandard.
pub open spec fn is_zstd(packed: Seq<u8>) -> bool {
    packed[0] == 0x28 && packed[1] == 0xb5 && packed[2] == 0x2f && packed[3] == 0xfd
}

// ---------------------------------------------------------------------------
// Chunks
// ---------------------------------------------------------------------------

/// What is known of a file after some of its chunks: how many instances of each type
/// there are, what the types are called, which referents the instances have, and which was given which parent.
pub ghost struct Layout {
    pub counts: Map<u32, u32>,
    pub names: Map<u32, Seq<u8>>,
    pub refs: Set<i32>,
    pub links: Seq<(i32, i32)>,
}

/// What a chunk leads to.
pub ghost enum Step {
    /// The reader reports the chunk, and reads no further.
    Stop,
    /// The reader cannot cope with the chunk.
    Bad,
    Go(Layout),
}

/// Where a text ends whose length stands at `p`; the end of the data may cut it short.
pub open spec fn text_end(s: Seq<u8>, p: int) -> int {
    if p + 4 + le(s, p) <= s.len() {
        p + 4 + le(s, p)
    } else {
        s.len() as int
    }
}

fn find_text_end(s: &[u8], p: usize) -> (res: usize)
    requires
        p + 4 <= s@.len(),
    ensures
        res == text_end(s@, p as int),
        p + 4 <= res <= s@.len(),
{
    let size: u32 = read_le(s, p);
    let rest: usize = s.len() - p - 4;
    if (size as u64) <= (rest as u64) {
        p + 4 + size as usize
    } else {
        s.len()
    }
}

/// The chunk that introduces the instances of a type.
pub open spec fn instances_step(s: Seq<u8>, st: Layout) -> Step {
    if s.len() < 8 {
        Step::Stop
    } else {
        let p = text_end(s, 4);
        let (n, q) = (le(s, p + 1), p + 5);
        if q > s.len() || q + 4 * n > s.len() {
            Step::Stop
        } else if !sums_fit(s, q, n) {
            Step::Bad
        } else {
            Step::Go(
                Layout {
                    counts: st.counts.insert(le(s, 0) as u32, n as u32),
                    names: st.names.insert(le(s, 0) as u32, s.subrange(8, p)),
                    refs: st.refs.union(referents(s, q, n).to_set()),
                    links: st.links,
                },
            )
        }
    }
}

/// Where `k` texts from `p` on end.
pub open spec fn texts_end(s: Seq<u8>, p: int, k: int) -> Option<int>
    decreases k,
{
    if k <= 0 {
        Some(p)
    } else {
        match texts_end(s, p, k - 1) {
            Some(q) => if q + 4 <= s.len() {
                Some(text_end(s, q))
            } else {
                None
            },
            None => None,
        }
    }
}

/// How many of the first `k` of `n` contents are of a kind.
pub open spec fn kind_count(s: Seq<u8>, p: int, n: int, kind: int, k: int) -> int
    decreases k,
{
    if k <= 0 {
        0
    } else {
        kind_count(s, p, n, kind, k - 1) + (if signed(interleaved(s, p, n, k - 1)) == kind {
            1int
        } else {
            0int
        })
    }
}

/// Whether `n` contents from `p` on can be read or are reported: there are as many
/// URIs and objects as contents of these kinds, and what follows is not cut short.
pub open spec fn contents_sound(s: Seq<u8>, p: int, n: int) -> bool {
    let a = p + 4 * n;
    if a + 4 > s.len() {
        true
    } else {
        match texts_end(s, a + 4, le(s, a)) {
            None => true,
            Some(q) => if q + 4 > s.len() || q + 4 + 4 * le(s, q) > s.len() {
                true
            } else {
                let m = le(s, q);
                &&& sums_fit(s, q + 4, m)
                &&& q + 4 + 4 * m + 4 <= s.len()
                &&& kind_count(s, p, n, 1, n) <= le(s, a)
                &&& kind_count(s, p, n, 2, n) <= m
            },
        }
    }
}

/// `Name`
pub open spec fn name_key() -> Seq<u8> {
    seq![78u8, 97, 109, 101]
}

/// The chunk of a property. The reader skips a property that is not stored.
pub open spec fn property_step(s: Seq<u8>, st: Layout, classes: Classes) -> Step {
    if s.len() < 8 || !st.counts.contains_key(le(s, 0) as u32) {
        Step::Stop
    } else {
        let p = text_end(s, 4);
        let n = st.counts[le(s, 0) as u32] as int;
        if p >= s.len() || s.subrange(8, p) == name_key() {
            Step::Go(st)
        } else if s[p] == 0x22 {
            if contents_sound(s, p + 1, n) || database::is_skipped(
                classes,
                st.names[le(s, 0) as u32],
                s.subrange(8, p),
            ) {
                Step::Go(st)
            } else {
                Step::Bad
            }
        } else if s[p] == 0x13 && p + 1 + 4 * n <= s.len() && !sums_fit(s, p + 1, n)
            && !database::is_skipped(classes, st.names[le(s, 0) as u32], s.subrange(8, p)) {
            Step::Bad
        } else {
            Step::Go(st)
        }
    }
}

/// Whether each of some parents is an instance or none.
pub open spec fn parents_known(parents: Seq<i32>, refs: Set<i32>) -> bool {
    forall|i: int|
        0 <= i < parents.len() ==> (#[trigger] parents[i] == -1 || refs.contains(parents[i]))
}

/// Two lists of one length, side by side.
pub open spec fn paired(subjects: Seq<i32>, parents: Seq<i32>) -> Seq<(i32, i32)> {
    Seq::new(subjects.len(), |i: int| (subjects[i], parents[i]))
}

/// The chunk that gives instances their parents.
pub open spec fn parents_step(s: Seq<u8>, st: Layout) -> Step {
    if s.len() < 5 || s[0] != 0 || 5 + 8 * le(s, 1) > s.len() {
        Step::Stop
    } else {
        let n = le(s, 1);
        if !sums_fit(s, 5, n) || !sums_fit(s, 5 + 4 * n, n) || !parents_known(
            referents(s, 5 + 4 * n, n),
            st.refs,
        ) {
            Step::Bad
        } else {
            Step::Go(
                Layout {
                    links: st.links + paired(referents(s, 5, n), referents(s, 5 + 4 * n, n)),
                    ..st
                },
            )
        }
    }
}

/// Whether a link is that of the parent in another one.
pub open spec fn comes_before(links: Seq<(i32, i32)>, j: int, i: int) -> bool {
    0 <= j < links.len() && links[j].0 == links[i].1
}

/// Whether a link gives an instance no parent, or one that such a link leads to within so
/// many steps.
pub open spec fn leads(links: Seq<(i32, i32)>, i: int, steps: nat) -> bool
    decreases steps,
{
    links[i].1 == -1 || (steps > 0 && exists|j: int| #[trigger]
        comes_before(links, j, i) && leads(links, j, (steps - 1) as nat))
}

/// Whether the top of the tree leads to a link.
pub open spec fn is_led_to(links: Seq<(i32, i32)>, i: int) -> bool {
    exists|steps: nat| #[trigger] leads(links, i, steps)
}

/// Whether what the top of the tree leads to is an instance, and is led to by one link.
pub open spec fn placed_once(st: Layout) -> bool {
    &&& forall|i: int|
        0 <= i < st.links.len() && #[trigger] is_led_to(st.links, i) ==> st.refs.contains(
            st.links[i].0,
        )
    &&& forall|i: int, j: int|
        0 <= i < j < st.links.len() && #[trigger] is_led_to(st.links, i) && #[trigger] is_led_to(
            st.links,
            j,
        ) ==> st.links[i].0 != st.links[j].0
}

/// Whether the chunk at `p` has that name.
pub open spec fn is_named(s: Seq<u8>, p: int, a: u8, b: u8, c: u8, d: u8) -> bool {
    s[p] == a && s[p + 1] == b && s[p + 2] == c && s[p + 3] == d
}

/// What the chunk at `p` with that data leads to. Chunks of other names hold nothing
/// that other chunks rely on.
pub open spec fn chunk_step(
    s: Seq<u8>,
    p: int,
    data: Seq<u8>,
    st: Layout,
    classes: Classes,
) -> Step {
    if is_named(s, p, 73, 78, 83, 84) {
        instances_step(data, st)
    } else if is_named(s, p, 80, 82, 79, 80) {
        property_step(data, st, classes)
    } else if is_named(s, p, 80, 82, 78, 84) {
        parents_step(data, st)
    } else if is_named(s, p, 69, 78, 68, 0) {
        if placed_once(st) {
            Step::Stop
        } else {
            Step::Bad
        }
    } else {
        Step::Go(st)
    }
}

/// What the data of the chunk at `p` unpacks to, where it is packed.
pub open spec fn unpacked(s: Seq<u8>, p: int) -> Option<Seq<u8>> {
    let packed = s.subrange(p + 16, data_end(s, p));
    if is_zstd(packed) {
        zstd_plain(packed, le(s, p + 8) as nat)
    } else {
        lz4_plain(packed, le(s, p + 8) as nat)
    }
}

/// Where the data of the chunk at `p` ends; the end of the file may cut it short.
pub open spec fn data_end(s: Seq<u8>, p: int) -> int {
    let size = if le(s, p + 4) == 0 {
        le(s, p + 8)
    } else {
        le(s, p + 4)
    };
    if p + 16 + size <= s.len() {
        p + 16 + size
    } else {
        s.len() as int
    }
}

/// What the data of a chunk is.
pub ghost enum Data {
    /// The reader reports that it cannot be unpacked.
    Refused,
    /// The reader cannot cope with its size.
    Bad,
    Plain(Seq<u8>),
}

/// The data of the chunk at `p`, whose header ends in zeros and says how large it is.
pub open spec fn chunk_data(s: Seq<u8>, p: int) -> Data {
    let (size, end) = (le(s, p + 8), data_end(s, p));
    if le(s, p + 12) != 0 {
        Data::Bad
    } else if le(s, p + 4) == 0 {
        if end == p + 16 + size {
            Data::Plain(s.subrange(p + 16, end))
        } else {
            Data::Bad
        }
    } else if end < p + 20 {
        Data::Bad
    } else {
        match unpacked(s, p) {
            None => Data::Refused,
            Some(plain) => if plain.len() == size {
                Data::Plain(plain)
            } else {
                Data::Bad
            },
        }
    }
}

/// Whether the chunks from `p` on can be read or are reported.
pub open spec fn chunks_sound(s: Seq<u8>, p: int, st: Layout, classes: Classes) -> bool
    decreases s.len() - p,
{
    if p < 0 || p + 16 > s.len() {
        true
    } else {
        match chunk_data(s, p) {
            Data::Refused => true,
            Data::Bad => false,
            Data::Plain(data) => match chunk_step(s, p, data, st, classes) {
                Step::Stop => true,
                Step::Bad => false,
                Step::Go(next) => chunks_sound(s, data_end(s, p), next, classes),
            },
        }
    }
}

/// What a file starts with, up to its counts.
pub open spec fn file_mark() -> Seq<u8> {
    seq![60u8, 114, 111, 98, 108, 111, 120, 33, 137, 255, 13, 10, 26, 10, 0, 0]
}

/// Whether the header of a file is one.
pub open spec fn has_header(s: Seq<u8>) -> bool {
    &&& s.len() >= 32
    &&& s.take(16) == file_mark()
    &&& le(s, 24) == 0
    &&& le(s, 28) == 0
}

/// Whether the layout of a file is such that its reader can read it, or reports what is
/// wrong with it.
pub open spec fn sound(s: Seq<u8>, classes: Classes) -> bool {
    has_header(s) ==> chunks_sound(s, 32, nothing_known(), classes)
}

/// What is known of a file before its first chunk.
pub open spec fn nothing_known() -> Layout {
    Layout {
        counts: Map::empty(),
        names: Map::empty(),
        refs: Set::empty(),
        links: Seq::empty(),
    }
}

// ---------------------------------------------------------------------------
// Going through a file
// ---------------------------------------------------------------------------

struct Known {
    counts: HashMap<u32, u32>,
    names: HashMap<u32, Vec<u8>>,
    refs: HashSet<i32>,
    links: Vec<(i32, i32)>,
}

impl Known {
    /// A type that is counted has a name.
    spec fn wf(self) -> bool {
        self.counts@.dom() == self.names@.dom()
    }
}

impl View for Known {
    type V = Layout;

    closed spec fn view(&self) -> Layout {
        Layout {
            counts: self.counts@,
            names: self.names@.map_values(|name: Vec<u8>| name@),
            refs: self.refs@,
            links: self.links@,
        }
    }
}

#[derive(Clone, Copy)]
enum Verdict {
    Stop,
    Bad,
    Go,
}

spec fn step_of(verdict: Verdict, st: Layout) -> Step {
    match verdict {
        Verdict::Stop => Step::Stop,
        Verdict::Bad => Step::Bad,
        Verdict::Go => Step::Go(st),
    }
}

fn add_all(set: &mut HashSet<i32>, list: &Vec<i32>)
    ensures
        final(set)@ == old(set)@.union(list@.to_set()),
{
    let ghost start = set@;
    let mut i: usize = 0;
    assert(set@ =~= start.union(list@.take(0).to_set()));
    while i < list.len()
        invariant
            i <= list.len(),
            set@ == start.union(list@.take(i as int).to_set()),
        decreases list.len() - i,
    {
        set.insert(list[i]);
        proof {
            let (a, b) = (list@.take(i as int), list@.take(i + 1));
            assert(b =~= a.push(list@[i as int]));
            assert forall|x: i32| #[trigger] b.to_set().contains(x) <==> (a.to_set().contains(x) || x
                == list@[i as int]) by {
                if b.contains(x) {
                    let k = b.index_of(x);
                    if k < i {
                        assert(a[k] == x);
                    }
                }
                if a.contains(x) {
                    assert(b[a.index_of(x)] == x);
                }
                assert(b[i as int] == list@[i as int]);
            }
            assert(set@ =~= start.union(b.to_set()));
        }
        i += 1;
    }
    assert(list@.take(list@.len() as int) =~= list@);
}

fn take_instances(s: &[u8], known: &mut Known) -> (res: Verdict)
    requires
        old(known).wf(),
    ensures
        final(known).wf(),
        step_of(res, final(known)@) == instances_step(s@, old(known)@),
{
    let ghost start = known@;
    if s.len() < 8 {
        return Verdict::Stop;
    }
    let p: usize = find_text_end(s, 4);
    if s.len() - p < 5 {
        return Verdict::Stop;
    }
    let n: u32 = read_le(s, p + 1);
    let q: usize = p + 5;
    if 4 * (n as u64) > ((s.len() - q) as u64) {
        return Verdict::Stop;
    }
    match read_referents(s, q, n as usize) {
        None => Verdict::Bad,
        Some(list) => {
            let name = slice_to_vec(slice_subrange(s, 8, p));
            known.counts.insert(read_le(s, 0), n);
            known.names.insert(read_le(s, 0), name);
            add_all(&mut known.refs, &list);
            assert(known@.names =~= start.names.insert(le(s@, 0) as u32, s@.subrange(8, p as int)));
            assert(known.counts@.dom() =~= known.names@.dom());
            Verdict::Go
        },
    }
}

proof fn lemma_texts_end_none(s: Seq<u8>, p: int, i: int, k: int)
    requires
        texts_end(s, p, i) is None,
        i <= k,
    ensures
        texts_end(s, p, k) is None,
    decreases k - i,
{
    if i < k {
        if i + 1 > 0 {
            assert(texts_end(s, p, i + 1) is None);
        }
        lemma_texts_end_none(s, p, i + 1, k);
    }
}

fn find_texts_end(s: &[u8], p: usize, k: u32) -> (res: Option<usize>)
    requires
        p <= s@.len(),
    ensures
        match res {
            Some(q) => texts_end(s@, p as int, k as int) == Some(q as int) && p <= q <= s@.len(),
            None => texts_end(s@, p as int, k as int) is None,
        },
{
    let mut q: usize = p;
    let mut i: u32 = 0;
    while i < k
        invariant
            i <= k,
            p <= q <= s@.len(),
            texts_end(s@, p as int, i as int) == Some(q as int),
        decreases k - i,
    {
        if s.len() - q < 4 {
            proof {
                assert(texts_end(s@, p as int, i + 1) is None);
                lemma_texts_end_none(s@, p as int, i + 1, k as int);
            }
            return None;
        }
        q = find_text_end(s, q);
        assert(texts_end(s@, p as int, i + 1) == Some(q as int));
        i += 1;
    }
    Some(q)
}

fn count_kind(s: &[u8], p: usize, n: usize, kind: i32) -> (res: usize)
    requires
        p + 4 * n <= s@.len(),
    ensures
        res == kind_count(s@, p as int, n as int, kind as int, n as int),
{
    let mut count: usize = 0;
    let mut i: usize = 0;
    while i < n
        invariant
            i <= n,
            count <= i,
            p + 4 * n <= s@.len(),
            count == kind_count(s@, p as int, n as int, kind as int, i as int),
        decreases n - i,
    {
        if to_signed(read_interleaved(s, p, n, i)) == kind {
            count += 1;
        }
        i += 1;
    }
    count
}

fn check_contents(s: &[u8], p: usize, n: u32) -> (res: bool)
    requires
        p <= s@.len(),
    ensures
        res == contents_sound(s@, p as int, n as int),
{
    if 4 * (n as u64) + 4 > ((s.len() - p) as u64) {
        return true;
    }
    let a: usize = p + 4 * (n as usize);
    let uris: u32 = read_le(s, a);
    let q: usize = match find_texts_end(s, a + 4, uris) {
        None => {
            return true;
        },
        Some(q) => q,
    };
    if s.len() - q < 4 {
        return true;
    }
    let m: u32 = read_le(s, q);
    if 4 + 4 * (m as u64) > ((s.len() - q) as u64) {
        return true;
    }
    if read_referents(s, q + 4, m as usize).is_none() {
        return false;
    }
    if 8 + 4 * (m as u64) > ((s.len() - q) as u64) {
        return false;
    }
    count_kind(s, p, n as usize, 1) as u64 <= uris as u64 && count_kind(s, p, n as usize, 2) as u64
        <= m as u64
}

fn is_name(s: &[u8], p: usize) -> (res: bool)
    requires
        8 <= p <= s@.len(),
    ensures
        res == (s@.subrange(8, p as int) == name_key()),
{
    let ghost name = s@.subrange(8, p as int);
    if p != 12 {
        assert(name.len() != name_key().len());
        return false;
    }
    let res = s[8] == 78 && s[9] == 97 && s[10] == 109 && s[11] == 101;
    proof {
        assert(name[0] == s@[8] && name[1] == s@[9] && name[2] == s@[10] && name[3] == s@[11]);
        if res {
            assert(name =~= name_key());
        } else if name == name_key() {
            assert(name[0] == 78 && name[1] == 97 && name[2] == 109 && name[3] == 101);
        }
    }
    res
}

/// Whether the property of a chunk is one that the reader skips.
fn is_passed_over(
    s: &[u8],
    p: usize,
    known: &Known,
    db: &ReflectionDatabase<'static>,
) -> (res: bool)
    requires
        known.wf(),
        8 <= p <= s@.len(),
        known@.counts.contains_key(le(s@, 0) as u32),
        database::fits_together(dom::classes(*db)),
    ensures
        res == database::is_skipped(
            dom::classes(*db),
            known@.names[le(s@, 0) as u32],
            s@.subrange(8, p as int),
        ),
{
    match known.names.get(&read_le(s, 0)) {
        Some(name) => skips_property(db, name.as_slice(), slice_subrange(s, 8, p)),
        None => false,
    }
}

fn check_property(s: &[u8], known: &Known, db: &ReflectionDatabase<'static>) -> (res: Verdict)
    requires
        known.wf(),
        database::fits_together(dom::classes(*db)),
    ensures
        step_of(res, known@) == property_step(s@, known@, dom::classes(*db)),
{
    if s.len() < 8 {
        return Verdict::Stop;
    }
    let n: u32 = match known.counts.get(&read_le(s, 0)) {
        None => {
            return Verdict::Stop;
        },
        Some(n) => *n,
    };
    let p: usize = find_text_end(s, 4);
    if p >= s.len() || is_name(s, p) {
        return Verdict::Go;
    }
    if s[p] == 0x22 {
        if check_contents(s, p + 1, n) || is_passed_over(s, p, known, db) {
            return Verdict::Go;
        }
        return Verdict::Bad;
    }
    if s[p] == 0x13 && 4 * (n as u64) <= ((s.len() - p - 1) as u64) {
        if read_referents(s, p + 1, n as usize).is_none() && !is_passed_over(s, p, known, db) {
            return Verdict::Bad;
        }
    }
    Verdict::Go
}

fn check_parents(parents: &Vec<i32>, refs: &HashSet<i32>) -> (res: bool)
    ensures
        res == parents_known(parents@, refs@),
{
    let mut i: usize = 0;
    while i < parents.len()
        invariant
            i <= parents.len(),
            forall|k: int|
                0 <= k < i ==> (#[trigger] parents@[k] == -1 || refs@.contains(parents@[k])),
        decreases parents.len() - i,
    {
        if parents[i] != -1 && !refs.contains(&parents[i]) {
            assert(!(parents@[i as int] == -1 || refs@.contains(parents@[i as int])));
            return false;
        }
        i += 1;
    }
    true
}

fn take_parents(s: &[u8], known: &mut Known) -> (res: Verdict)
    requires
        old(known).wf(),
    ensures
        final(known).wf(),
        step_of(res, final(known)@) == parents_step(s@, old(known)@),
{
    let ghost start = known@;
    if s.len() < 5 || s[0] != 0 {
        return Verdict::Stop;
    }
    let n: u32 = read_le(s, 1);
    if 5 + 8 * (n as u64) > (s.len() as u64) {
        return Verdict::Stop;
    }
    let subjects = match read_referents(s, 5, n as usize) {
        None => {
            return Verdict::Bad;
        },
        Some(list) => list,
    };
    let parents = match read_referents(s, 5 + 4 * (n as usize), n as usize) {
        None => {
            return Verdict::Bad;
        },
        Some(list) => list,
    };
    if !check_parents(&parents, &known.refs) {
        return Verdict::Bad;
    }
    assert(start.links + paired(subjects@, parents@).take(0) =~= start.links);
    let mut i: usize = 0;
    while i < subjects.len()
        invariant
            i <= subjects@.len() == parents@.len(),
            known.wf(),
            known@ == (Layout {
                links: start.links + paired(subjects@, parents@).take(i as int),
                ..start
            }),
        decreases subjects.len() - i,
    {
        known.links.push((subjects[i], parents[i]));
        assert(known.links@ =~= start.links + paired(subjects@, parents@).take(i + 1));
        i += 1;
    }
    assert(paired(subjects@, parents@).take(i as int) =~= paired(subjects@, parents@));
    Verdict::Go
}

/// How many marks are set.
spec fn marked(marks: Seq<bool>) -> nat
    decreases marks.len(),
{
    if marks.len() == 0 {
        0
    } else {
        marked(marks.drop_last()) + if marks.last() {
            1nat
        } else {
            0
        }
    }
}

proof fn lemma_marked(marks: Seq<bool>, i: int)
    requires
        0 <= i < marks.len(),
        !marks[i],
    ensures
        marked(marks.update(i, true)) == marked(marks) + 1,
        marked(marks.update(i, true)) <= marks.len(),
    decreases marks.len(),
{
    let after = marks.update(i, true);
    if i < marks.len() - 1 {
        assert(after.drop_last() =~= marks.drop_last().update(i, true));
        lemma_marked(marks.drop_last(), i);
    } else {
        assert(after.drop_last() =~= marks.drop_last());
        lemma_marked_bound(marks.drop_last());
    }
}

proof fn lemma_marked_bound(marks: Seq<bool>)
    ensures
        marked(marks) <= marks.len(),
    decreases marks.len(),
{
    if marks.len() > 0 {
        lemma_marked_bound(marks.drop_last());
    }
}

/// Whether a link has a mark and is that of an instance.
spec fn is_marked_as(links: Seq<(i32, i32)>, marks: Seq<bool>, i: int, x: i32) -> bool {
    0 <= i < links.len() && marks[i] && links[i].0 == x
}

/// Whether some links have marks that the top of the tree leads to, to instances that are
/// all different, and `reached` are those.
spec fn marks_led(
    links: Seq<(i32, i32)>,
    refs: Set<i32>,
    marks: Seq<bool>,
    reached: Set<i32>,
) -> bool {
    &&& marks.len() == links.len()
    &&& forall|i: int|
        0 <= i < links.len() && #[trigger] marks[i] ==> is_led_to(links, i) && refs.contains(
            links[i].0,
        )
    &&& forall|i: int, j: int|
        0 <= i < j < links.len() && #[trigger] marks[i] && #[trigger] marks[j] ==> links[i].0
            != links[j].0
    &&& forall|x: i32| #[trigger]
        reached.contains(x) <==> exists|i: int| is_marked_as(links, marks, i, x)
}

/// Whether a link is to be marked: it has no parent, or one that was reached.
spec fn is_due(links: Seq<(i32, i32)>, reached: Set<i32>, i: int) -> bool {
    links[i].1 == -1 || reached.contains(links[i].1)
}

proof fn lemma_due_is_led(
    links: Seq<(i32, i32)>,
    refs: Set<i32>,
    marks: Seq<bool>,
    reached: Set<i32>,
    i: int,
)
    requires
        marks_led(links, refs, marks, reached),
        0 <= i < links.len(),
        is_due(links, reached, i),
    ensures
        is_led_to(links, i),
{
    if links[i].1 == -1 {
        assert(leads(links, i, 0));
    } else {
        let j = choose|j: int| is_marked_as(links, marks, j, links[i].1);
        assert(marks[j] && is_led_to(links, j));
        let steps = choose|steps: nat| #[trigger] leads(links, j, steps);
        assert(comes_before(links, j, i));
        assert(leads(links, i, steps + 1));
    }
}

/// Where all links that are due have marks, so have all that the top leads to.
proof fn lemma_all_marked(
    links: Seq<(i32, i32)>,
    refs: Set<i32>,
    marks: Seq<bool>,
    reached: Set<i32>,
    i: int,
    steps: nat,
)
    requires
        marks_led(links, refs, marks, reached),
        forall|k: int| 0 <= k < links.len() && is_due(links, reached, k) ==> #[trigger] marks[k],
        0 <= i < links.len(),
        leads(links, i, steps),
    ensures
        marks[i],
    decreases steps,
{
    if links[i].1 != -1 {
        let j = choose|j: int| #[trigger]
            comes_before(links, j, i) && leads(links, j, (steps - 1) as nat);
        lemma_all_marked(links, refs, marks, reached, j, (steps - 1) as nat);
        assert(is_marked_as(links, marks, j, links[i].1));
    }
    assert(is_due(links, reached, i));
}

proof fn lemma_mark(
    links: Seq<(i32, i32)>,
    refs: Set<i32>,
    marks: Seq<bool>,
    reached: Set<i32>,
    i: int,
)
    requires
        marks_led(links, refs, marks, reached),
        0 <= i < links.len(),
        is_due(links, reached, i),
        !reached.contains(links[i].0),
        refs.contains(links[i].0),
    ensures
        marks_led(links, refs, marks.update(i, true), reached.insert(links[i].0)),
{
    let (after, grown) = (marks.update(i, true), reached.insert(links[i].0));
    lemma_due_is_led(links, refs, marks, reached, i);
    assert forall|k: int, j: int|
        0 <= k < j < links.len() && #[trigger] after[k] && #[trigger] after[j] implies links[k].0
        != links[j].0 by {
        if k == i {
            if links[j].0 == links[i].0 {
                assert(is_marked_as(links, marks, j, links[i].0));
            }
        } else if j == i {
            if links[k].0 == links[i].0 {
                assert(is_marked_as(links, marks, k, links[i].0));
            }
        } else {
            assert(marks[k] && marks[j]);
        }
    }
    assert forall|x: i32| #[trigger] grown.contains(x) <==> exists|k: int|
        is_marked_as(links, after, k, x) by {
        if x == links[i].0 {
            assert(is_marked_as(links, after, i, x));
        } else {
            if reached.contains(x) {
                let k = choose|k: int| is_marked_as(links, marks, k, x);
                assert(is_marked_as(links, after, k, x));
            }
            if exists|k: int| is_marked_as(links, after, k, x) {
                let k = choose|k: int| is_marked_as(links, after, k, x);
                assert(is_marked_as(links, marks, k, x));
            }
        }
    }
}

/// Goes through the links from the last on and marks those that are due. Whether there
/// was one; nothing where one of them leads to no instance, or to one that another link
/// leads to.
fn mark_due(
    links: &Vec<(i32, i32)>,
    refs: &HashSet<i32>,
    marks: &mut Vec<bool>,
    reached: &mut HashSet<i32>,
) -> (res: Option<bool>)
    requires
        marks_led(links@, refs@, old(marks)@, old(reached)@),
    ensures
        match res {
            None => exists|i: int| #[trigger]
                is_led_to(links@, i) && 0 <= i < links@.len() && (!refs@.contains(links@[i].0)
                    || exists|j: int| #[trigger]
                    is_led_to(links@, j) && 0 <= j < links@.len() && j != i && links@[j].0
                        == links@[i].0),
            Some(more) => {
                &&& marks_led(links@, refs@, final(marks)@, final(reached)@)
                &&& if more {
                    marked(old(marks)@) < marked(final(marks)@) <= links@.len()
                } else {
                    forall|k: int|
                        0 <= k < links@.len() && is_due(links@, final(reached)@, k)
                            ==> #[trigger] final(marks)@[k]
                }
            },
        },
{
    let ghost before = marks@;
    let ghost start = reached@;
    let mut more = false;
    let mut i: usize = links.len();
    while i > 0
        invariant
            i <= links.len(),
            marks_led(links@, refs@, marks@, reached@),
            more ==> marked(before) < marked(marks@) <= links@.len(),
            !more ==> marks@ == before && reached@ == start && forall|k: int|
                i <= k < links@.len() && is_due(links@, start, k) ==> #[trigger] before[k],
        decreases i,
    {
        i -= 1;
        let (subject, parent): (i32, i32) = links[i];
        if !marks[i] && (parent == -1 || reached.contains(&parent)) {
            assert(is_due(links@, reached@, i as int));
            proof {
                lemma_due_is_led(links@, refs@, marks@, reached@, i as int);
            }
            if !refs.contains(&subject) {
                return None;
            }
            if reached.contains(&subject) {
                proof {
                    let j = choose|j: int| is_marked_as(links@, marks@, j, subject);
                    assert(marks@[j] && is_led_to(links@, j));
                    assert(j != i);
                }
                return None;
            }
            let ghost (old_marks, old_reached) = (marks@, reached@);
            marks.set(i, true);
            reached.insert(subject);
            proof {
                lemma_mark(links@, refs@, old_marks, old_reached, i as int);
                lemma_marked(old_marks, i as int);
            }
            more = true;
        }
    }
    Some(more)
}

fn check_placed(known: &Known) -> (res: bool)
    ensures
        res == placed_once(known@),
{
    let links = &known.links;
    let refs = &known.refs;
    let mut marks: Vec<bool> = Vec::new();
    while marks.len() < links.len()
        invariant
            marks.len() <= links.len(),
            forall|k: int| 0 <= k < marks@.len() ==> !#[trigger] marks@[k],
        decreases links.len() - marks.len(),
    {
        marks.push(false);
    }
    let mut reached: HashSet<i32> = HashSet::new();
    assert(marks_led(links@, refs@, marks@, reached@));
    loop
        invariant
            links@ == known@.links,
            refs@ == known@.refs,
            marks_led(links@, refs@, marks@, reached@),
        decreases links@.len() - marked(marks@),
    {
        let ghost before = marks@;
        proof {
            lemma_marked_bound(before);
        }
        match mark_due(links, refs, &mut marks, &mut reached) {
            None => {
                proof {
                    let i = choose|i: int| #[trigger]
                        is_led_to(links@, i) && 0 <= i < links@.len() && (!refs@.contains(
                            links@[i].0,
                        ) || exists|j: int| #[trigger]
                            is_led_to(links@, j) && 0 <= j < links@.len() && j != i && links@[j].0
                                == links@[i].0);
                    if refs@.contains(links@[i].0) {
                        let j = choose|j: int| #[trigger]
                            is_led_to(links@, j) && 0 <= j < links@.len() && j != i && links@[j].0
                                == links@[i].0;
                        let (low, high) = if i < j {
                            (i, j)
                        } else {
                            (j, i)
                        };
                        assert(is_led_to(links@, low) && is_led_to(links@, high));
                        assert(!placed_once(known@));
                    }
                }
                return false;
            },
            Some(again) => {
                if !again {
                    proof {
                        assert forall|i: int|
                            0 <= i < links@.len() && #[trigger] is_led_to(
                                links@,
                                i,
                            ) implies marks@[i] by {
                            let steps = choose|steps: nat| #[trigger] leads(links@, i, steps);
                            lemma_all_marked(links@, refs@, marks@, reached@, i, steps);
                        }
                    }
                    return true;
                }
            },
        }
    }
}

fn named(s: &[u8], p: usize, a: u8, b: u8, c: u8, d: u8) -> (res: bool)
    requires
        p + 4 <= s@.len(),
    ensures
        res == is_named(s@, p as int, a, b, c, d),
{
    let _len: usize = s.len();
    s[p] == a && s[p + 1] == b && s[p + 2] == c && s[p + 3] == d
}

fn take_chunk(
    s: &[u8],
    p: usize,
    data: &[u8],
    known: &mut Known,
    db: &ReflectionDatabase<'static>,
) -> (res: Verdict)
    requires
        p + 16 <= s@.len(),
        old(known).wf(),
        database::fits_together(dom::classes(*db)),
    ensures
        final(known).wf(),
        step_of(res, final(known)@) == chunk_step(
            s@,
            p as int,
            data@,
            old(known)@,
            dom::classes(*db),
        ),
{
    if named(s, p, 73, 78, 83, 84) {
        take_instances(data, known)
    } else if named(s, p, 80, 82, 79, 80) {
        check_property(data, known, db)
    } else if named(s, p, 80, 82, 78, 84) {
        take_parents(data, known)
    } else if named(s, p, 69, 78, 68, 0) {
        if check_placed(known) {
            Verdict::Stop
        } else {
            Verdict::Bad
        }
    } else {
        Verdict::Go
    }
}

fn find_data_end(s: &[u8], p: usize) -> (res: usize)
    requires
        p + 16 <= s@.len(),
    ensures
        res == data_end(s@, p as int),
        p + 16 <= res <= s@.len(),
{
    let len: usize = s.len();
    let packed: u32 = read_le(s, p + 4);
    let size: u32 = if packed == 0 {
        read_le(s, p + 8)
    } else {
        packed
    };
    let rest: usize = len - p - 16;
    if (size as u64) <= (rest as u64) {
        p + 16 + size as usize
    } else {
        len
    }
}

fn unpack(packed: &[u8], size: u32) -> (res: Option<Vec<u8>>)
    requires
        packed@.len() >= 4,
    ensures
        bytes_view(res) == (if is_zstd(packed@) {
            zstd_plain(packed@, size as nat)
        } else {
            lz4_plain(packed@, size as nat)
        }),
{
    if packed[0] == 0x28 && packed[1] == 0xb5 && packed[2] == 0x2f && packed[3] == 0xfd {
        unpack_zstd(packed, size as usize)
    } else {
        unpack_lz4(packed, size as usize)
    }
}

/// Goes through the chunk at `p`.
fn step(
    s: &[u8],
    p: usize,
    known: &mut Known,
    db: &ReflectionDatabase<'static>,
) -> (res: Verdict)
    requires
        p + 16 <= s@.len(),
        old(known).wf(),
        database::fits_together(dom::classes(*db)),
    ensures
        final(known).wf(),
        match chunk_data(s@, p as int) {
            Data::Refused => res is Stop,
            Data::Bad => res is Bad,
            Data::Plain(data) => step_of(res, final(known)@) == chunk_step(
                s@,
                p as int,
                data,
                old(known)@,
                dom::classes(*db),
            ),
        },
{
    let end: usize = find_data_end(s, p);
    let size: u32 = read_le(s, p + 8);
    if read_le(s, p + 12) != 0 {
        return Verdict::Bad;
    }
    let data = slice_subrange(s, p + 16, end);
    if read_le(s, p + 4) == 0 {
        if (data.len() as u64) != (size as u64) {
            return Verdict::Bad;
        }
        return take_chunk(s, p, data, known, db);
    }
    if data.len() < 4 {
        return Verdict::Bad;
    }
    match unpack(data, size) {
        None => Verdict::Stop,
        Some(plain) => {
            if (plain.len() as u64) != (size as u64) {
                return Verdict::Bad;
            }
            take_chunk(s, p, plain.as_slice(), known, db)
        },
    }
}

fn check_header(s: &[u8]) -> (res: bool)
    ensures
        res == has_header(s@),
{
    if s.len() < 32 {
        return false;
    }
    let mark: Vec<u8> = vec![60, 114, 111, 98, 108, 111, 120, 33, 137, 255, 13, 10, 26, 10, 0, 0];
    assert(mark@ =~= file_mark());
    let mut i: usize = 0;
    while i < 16
        invariant
            i <= 16,
            s@.len() >= 32,
            mark@ == file_mark(),
            forall|k: int| 0 <= k < i ==> s@[k] == mark@[k],
        decreases 16 - i,
    {
        if s[i] != mark[i] {
            assert(s@.take(16)[i as int] != file_mark()[i as int]);
            return false;
        }
        i += 1;
    }
    assert(s@.take(16) =~= file_mark());
    read_le(s, 24) == 0 && read_le(s, 28) == 0
}

/// Tells whether the layout of a file is such that its reader can read it, or reports
/// what is wrong with it.
pub fn is_sound(bytes: &[u8], db: &ReflectionDatabase<'static>) -> (res: bool)
    requires
        database::fits_together(dom::classes(*db)),
    ensures
        res == sound(bytes@, dom::classes(*db)),
{
    if !check_header(bytes) {
        return true;
    }
    let ghost classes = dom::classes(*db);
    let mut known = Known {
        counts: HashMap::new(),
        names: HashMap::new(),
        refs: HashSet::new(),
        links: Vec::new(),
    };
    assert(known@.names =~= nothing_known().names);
    assert(known@ == nothing_known());
    assert(known.counts@.dom() =~= known.names@.dom());
    let mut p: usize = 32;
    while bytes.len() - p >= 16
        invariant
            p <= bytes@.len(),
            has_header(bytes@),
            known.wf(),
            classes == dom::classes(*db),
            database::fits_together(classes),
            sound(bytes@, classes) == chunks_sound(bytes@, p as int, known@, classes),
        decreases bytes@.len() - p,
    {
        let end: usize = find_data_end(bytes, p);
        match step(bytes, p, &mut known, db) {
            Verdict::Stop => {
                return true;
            },
            Verdict::Bad => {
                return false;
            },
            Verdict::Go => {},
        }
        p = end;
    }
    true
}

} // verus!
