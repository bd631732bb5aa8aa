//! The ranking order of files: by size, and among files of one size by path.
//!
//! A file is ranked by the pair of its size and its path. Sizes compare as
//! numbers; paths compare as their UTF-8 bytes, lexicographically. The order
//! is total, so no two different files rank the same.
use vstd::prelude::*;
use vstd::utf8::encode_utf8;

verus! {

/// What a file is ranked by: its size in bytes and its path.
pub type Rank = (u64, Seq<char>);

/// The lexicographic order of byte strings: `a` comes before `b` where it is
/// a proper prefix of `b`, or holds the smaller byte at the first place where
/// the two differ.
pub open spec fn bytes_before(a: Seq<u8>, b: Seq<u8>) -> bool
    decreases a.len(),
{
    if b.len() == 0 {
        false
    } else if a.len() == 0 {
        true
    } else if a[0] != b[0] {
        a[0] < b[0]
    } else {
        bytes_before(a.skip(1), b.skip(1))
    }
}

/// The ranking order: `a` ranks below `b` where it is the smaller file, or
/// one of the same size whose path comes first.
pub open spec fn precedes(a: Rank, b: Rank) -> bool {
    a.0 < b.0 || (a.0 == b.0 && bytes_before(encode_utf8(a.1), encode_utf8(b.1)))
}

/// How one rank stands to another.
#[derive(Clone, Copy, Debug, PartialEq, Eq)]
pub enum Relation {
    /// It ranks below the other.
    Below,
    /// It is the other's rank.
    Same,
    /// It ranks above the other.
    Above,
}

/// How `a` stands to `b` in the ranking order.
pub open spec fn relation(a: Rank, b: Rank) -> Relation {
    if precedes(a, b) {
        Relation::Below
    } else if a == b {
        Relation::Same
    } else {
        Relation::Above
    }
}

/// No byte string comes before itself.
pub proof fn lemma_bytes_before_irreflexive(a: Seq<u8>)
    ensures
        !bytes_before(a, a),
    decreases a.len(),
{
    if a.len() > 0 {
        lemma_bytes_before_irreflexive(a.skip(1));
    }
}

/// What comes before something that comes before `c` comes before `c`.
pub proof fn lemma_bytes_before_transitive(a: Seq<u8>, b: Seq<u8>, c: Seq<u8>)
    requires
        bytes_before(a, b),
        bytes_before(b, c),
    ensures
        bytes_before(a, c),
    decreases a.len(),
{
    if a.len() > 0 && a[0] == b[0] && b[0] == c[0] {
        lemma_bytes_before_transitive(a.skip(1), b.skip(1), c.skip(1));
    }
}

/// Of two different byte strings one comes before the other.
pub proof fn lemma_bytes_before_connected(a: Seq<u8>, b: Seq<u8>)
    requires
        a != b,
    ensures
        bytes_before(a, b) || bytes_before(b, a),
    decreases a.len(),
{
    if a.len() > 0 && b.len() > 0 && a[0] == b[0] {
        if a.skip(1) == b.skip(1) {
            assert(a =~= seq![a[0]] + a.skip(1));
            assert(b =~= seq![b[0]] + b.skip(1));
        }
        lemma_bytes_before_connected(a.skip(1), b.skip(1));
    } else if a.len() == 0 && b.len() == 0 {
        assert(a =~= b);
    }
}

/// Two paths with the same bytes are the same path.
pub proof fn lemma_path_bytes_injective(p: Seq<char>, q: Seq<char>)
    requires
        encode_utf8(p) == encode_utf8(q),
    ensures
        p == q,
{
    vstd::utf8::encode_utf8_decode_utf8(p);
    vstd::utf8::encode_utf8_decode_utf8(q);
}

/// The ranking order is a strict total order: nothing ranks below itself,
/// ranking below carries over, and of two different ranks one is below the
/// other.
pub proof fn lemma_precedes_total_order(a: Rank, b: Rank, c: Rank)
    ensures
        !precedes(a, a),
        precedes(a, b) && precedes(b, c) ==> precedes(a, c),
        precedes(a, b) ==> !precedes(b, a),
        a != b ==> precedes(a, b) || precedes(b, a),
{
    let (x, y, z) = (encode_utf8(a.1), encode_utf8(b.1), encode_utf8(c.1));
    lemma_bytes_before_irreflexive(x);
    if precedes(a, b) && precedes(b, c) && a.0 == b.0 && b.0 == c.0 {
        lemma_bytes_before_transitive(x, y, z);
    }
    if precedes(a, b) && precedes(b, a) {
        lemma_bytes_before_transitive(x, y, x);
    }
    if a != b && a.0 == b.0 {
        if x == y {
            lemma_path_bytes_injective(a.1, b.1);
        }
        lemma_bytes_before_connected(x, y);
    }
}

/// Something that is ranked: it has a size and a path.
pub trait Ranked {
    /// The size and the path that the value is ranked by.
    spec fn rank(&self) -> Rank;

    /// The size in bytes.
    fn size_in_bytes(&self) -> (size: u64)
        ensures
            size == self.rank().0,
    ;

    /// The path.
    fn path_str(&self) -> (path: &str)
        ensures
            path@ == self.rank().1,
    ;
}

/// The ranks of a sequence of ranked values, in its order.
pub open spec fn ranks<T: Ranked>(s: Seq<T>) -> Seq<Rank> {
    Seq::new(s.len(), |i: int| s[i].rank())
}

/// Whether each rank of `s` is below all that follow it: `s` rises, and no
/// rank occurs twice.
pub open spec fn ascending(s: Seq<Rank>) -> bool {
    forall|i: int, j: int| 0 <= i < j < s.len() ==> precedes(#[trigger] s[i], #[trigger] s[j])
}

/// Whether no rank of `s` is above one that follows it: `s` rises, and a rank
/// may repeat.
pub open spec fn rising(s: Seq<Rank>) -> bool {
    forall|i: int, j: int| 0 <= i < j < s.len() ==> !precedes(#[trigger] s[j], #[trigger] s[i])
}

/// Whether no rank of `s` is below one that follows it: `s` falls, and a rank
/// may repeat.
pub open spec fn falling(s: Seq<Rank>) -> bool {
    forall|i: int, j: int| 0 <= i < j < s.len() ==> !precedes(#[trigger] s[i], #[trigger] s[j])
}

/// Whether each rank of `s` is above all that follow it: `s` falls, and no
/// rank occurs twice.
pub open spec fn descending(s: Seq<Rank>) -> bool {
    forall|i: int, j: int| 0 <= i < j < s.len() ==> precedes(#[trigger] s[j], #[trigger] s[i])
}

/// What falling means in sizes and paths: in a sequence that falls, a file
/// is no smaller than those that follow it, and of two files of one size the
/// one with the later path stands first.
pub proof fn lemma_falling_by_size_then_path(s: Seq<Rank>, i: int, j: int)
    requires
        descending(s) || falling(s),
        0 <= i < j < s.len(),
    ensures
        s[i].0 >= s[j].0,
        s[i].0 == s[j].0 ==> !bytes_before(encode_utf8(s[i].1), encode_utf8(s[j].1)),
        descending(s) && s[i].0 == s[j].0 ==> bytes_before(
            encode_utf8(s[j].1),
            encode_utf8(s[i].1),
        ),
{
    lemma_precedes_total_order(s[i], s[j], s[i]);
}

/// Compares two byte strings lexicographically.
fn relate_bytes(a: &[u8], b: &[u8]) -> (r: Relation)
    ensures
        r == if bytes_before(a@, b@) {
            Relation::Below
        } else if a@ == b@ {
            Relation::Same
        } else {
            Relation::Above
        },
{
    let mut i: usize = 0;
    assert(a@.skip(0) =~= a@ && b@.skip(0) =~= b@);
    while i < a.len() && i < b.len()
        invariant
            i <= a.len(),
            i <= b.len(),
            forall|k: int| 0 <= k < i ==> a@[k] == b@[k],
            bytes_before(a@, b@) == bytes_before(a@.skip(i as int), b@.skip(i as int)),
        decreases a.len() - i,
    {
        if a[i] < b[i] {
            return Relation::Below;
        }
        if a[i] > b[i] {
            return Relation::Above;
        }
        assert(a@.skip(i as int).skip(1) =~= a@.skip(i + 1));
        assert(b@.skip(i as int).skip(1) =~= b@.skip(i + 1));
        i += 1;
    }
    if i < b.len() {
        Relation::Below
    } else if i < a.len() {
        Relation::Above
    } else {
        assert(a@ =~= b@);
        proof {
            lemma_bytes_before_irreflexive(a@);
        }
        Relation::Same
    }
}

/// How `a` stands to `b` in the ranking order.
pub fn relate<A: Ranked, B: Ranked>(a: &A, b: &B) -> (r: Relation)
    ensures
        r == relation(a.rank(), b.rank()),
{
    let (m, n) = (a.size_in_bytes(), b.size_in_bytes());
    if m < n {
        Relation::Below
    } else if m > n {
        Relation::Above
    } else {
        let r = relate_bytes(a.path_str().as_bytes(), b.path_str().as_bytes());
        proof {
            if r == Relation::Same {
                lemma_path_bytes_injective(a.rank().1, b.rank().1);
            }
        }
        r
    }
}

/// Where `key` belongs in the rising sequence `v`: the number of values of
/// `v` that rank below it. They are the first ones.
pub(crate) fn lower_bound<T: Ranked, K: Ranked>(v: &Vec<T>, key: &K) -> (at: usize)
    requires
        rising(ranks(v@)),
    ensures
        at <= v.len(),
        forall|i: int| 0 <= i < at ==> precedes(#[trigger] ranks(v@)[i], key.rank()),
        forall|i: int| at <= i < v.len() ==> !precedes(#[trigger] ranks(v@)[i], key.rank()),
{
    let ghost all = ranks(v@);
    let mut lo: usize = 0;
    let mut hi: usize = v.len();
    while lo < hi
        invariant
            lo <= hi <= v.len(),
            all == ranks(v@),
            rising(all),
            forall|i: int| 0 <= i < lo ==> precedes(#[trigger] all[i], key.rank()),
            forall|i: int| hi <= i < v.len() ==> !precedes(#[trigger] all[i], key.rank()),
        decreases hi - lo,
    {
        let mid: usize = lo + (hi - lo) / 2;
        let r = relate(&v[mid], key);
        assert(all[mid as int] == v@[mid as int].rank());
        match r {
            Relation::Below => {
                assert forall|i: int| 0 <= i < mid + 1 implies precedes(
                    #[trigger] all[i],
                    key.rank(),
                ) by {
                    lemma_precedes_total_order(all[i], all[mid as int], key.rank());
                }
                lo = mid + 1;
            },
            _ => {
                assert forall|i: int| mid <= i < v.len() implies !precedes(
                    #[trigger] all[i],
                    key.rank(),
                ) by {
                    lemma_precedes_total_order(all[mid as int], all[i], key.rank());
                }
                hi = mid;
            },
        }
    }
    lo
}

} // verus!
