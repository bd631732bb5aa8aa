//! The files seen by a scan, and the largest of them.
//!
//! A [`WorkingSet`] keeps every file that a scan has come across, in ranking
//! order, each once. A snapshot of it is its top of the ranking: the largest
//! files, the largest first, up to a limit.
use crate::rank::{
    ascending, descending, lemma_precedes_total_order, lower_bound, precedes, ranks, relate,
    rising, Rank, Relation,
};
use crate::FileSize;
use vstd::prelude::*;

verus! {

/// The top of a ranking: the last `limit` ranks of the ascending sequence
/// `seen`, the highest first; all of them where `seen` holds no more than
/// `limit`.
pub open spec fn top(seen: Seq<Rank>, limit: nat) -> Seq<Rank> {
    let count = if limit <= seen.len() {
        limit
    } else {
        seen.len()
    };
    Seq::new(count, |i: int| seen[seen.len() - 1 - i])
}

/// Whether `snapshot` is the top `limit` of the set `seen`: it holds `limit`
/// ranks of `seen`, or all of them where they are fewer; it falls from each
/// to the next; and what it leaves out of `seen` is below all that it holds.
pub open spec fn is_top(snapshot: Seq<Rank>, seen: Set<Rank>, limit: nat) -> bool {
    &&& snapshot.len() == if limit <= seen.len() {
        limit
    } else {
        seen.len()
    }
    &&& descending(snapshot)
    &&& forall|i: int| 0 <= i < snapshot.len() ==> seen.contains(#[trigger] snapshot[i])
    &&& forall|r: Rank, i: int|
        #![trigger seen.contains(r), snapshot[i]]
        seen.contains(r) && !snapshot.contains(r) && 0 <= i < snapshot.len() ==> precedes(
            r,
            snapshot[i],
        )
}

/// The files that a scan has seen, each once, in ascending ranking order.
pub struct WorkingSet {
    files: Vec<(FileSize, String)>,
}

impl View for WorkingSet {
    type V = Seq<Rank>;

    closed spec fn view(&self) -> Seq<Rank> {
        ranks(self.files@)
    }
}

impl WorkingSet {
    #[verifier::type_invariant]
    spec fn inv(self) -> bool {
        ascending(self@)
    }

    /// A working set that has seen nothing.
    pub fn new() -> (set: WorkingSet)
        ensures
            set@ == Seq::<Rank>::empty(),
    {
        let set = WorkingSet { files: Vec::new() };
        assert(set@ =~= Seq::<Rank>::empty());
        set
    }

    /// The number of different files seen.
    pub fn len(&self) -> (len: usize)
        ensures
            len == self@.len(),
            len == self@.to_set().len(),
            ascending(self@),
    {
        proof {
            use_type_invariant(self);
            lemma_ascending_has_no_duplicates(self@);
            self@.unique_seq_to_set();
        }
        self.files.len()
    }

    /// Takes a file in. A file that was seen before changes nothing.
    pub fn insert(&mut self, size: FileSize, path: String)
        ensures
            ascending(final(self)@),
            final(self)@.to_set() == old(self)@.to_set().insert((size@, path@)),
    {
        proof {
            use_type_invariant(&*self);
            lemma_ascending_is_rising(self@);
        }
        let ghost before = self@;
        let ghost rank = (size@, path@);
        let file = (size, path);
        let at = lower_bound(&self.files, &file);
        let present = if at < self.files.len() {
            match relate(&self.files[at], &file) {
                Relation::Same => true,
                _ => false,
            }
        } else {
            false
        };
        if present {
            assert(before[at as int] == rank);
            assert(before.to_set().insert(rank) =~= before.to_set());
        } else {
            proof {
                lemma_insert_keeps_ascending(before, at as int, rank);
                lemma_insert_into_set(before, at as int, rank);
                assert(ranks(self.files@.insert(at as int, file)) =~= before.insert(
                    at as int,
                    rank,
                ));
            }
            let mut files: Vec<(FileSize, String)> = Vec::new();
            assert(ranks(files@) =~= Seq::<Rank>::empty());
            core::mem::swap(&mut self.files, &mut files);
            files.insert(at, file);
            self.files = files;
        }
    }

    /// The `limit` largest files seen, the largest first; all files seen
    /// where they are no more than `limit`.
    pub fn snapshot(&self, limit: usize) -> (snapshot: Vec<(FileSize, String)>)
        ensures
            ranks(snapshot@) == top(self@, limit as nat),
            is_top(ranks(snapshot@), self@.to_set(), limit as nat),
    {
        proof {
            use_type_invariant(self);
            lemma_top_of_ascending(self@, limit as nat);
        }
        let len: usize = self.files.len();
        let count: usize = if limit <= len {
            limit
        } else {
            len
        };
        let mut snapshot: Vec<(FileSize, String)> = Vec::new();
        let mut taken: usize = 0;
        while taken < count
            invariant
                taken <= count <= len,
                len == self.files.len(),
                snapshot.len() == taken,
                ranks(snapshot@) == Seq::new(taken as nat, |i: int| self@[len - 1 - i]),
            decreases count - taken,
        {
            let ghost held = snapshot@;
            let file = &self.files[len - 1 - taken];
            let copy = (file.0.clone(), file.1.clone());
            assert(copy@ == self@[len - 1 - taken]);
            snapshot.push(copy);
            taken += 1;
            assert forall|i: int| 0 <= i < taken implies ranks(snapshot@)[i] == self@[len - 1
                - i] by {
                if i < taken - 1 {
                    assert(ranks(held)[i] == self@[len - 1 - i]);
                }
            }
            assert(ranks(snapshot@) =~= Seq::new(taken as nat, |i: int| self@[len - 1 - i]));
        }
        assert(ranks(snapshot@) =~= top(self@, limit as nat));
        snapshot
    }
}

/// What rises without a rank twice rises.
pub proof fn lemma_ascending_is_rising(s: Seq<Rank>)
    requires
        ascending(s),
    ensures
        rising(s),
{
    assert forall|i: int, j: int| 0 <= i < j < s.len() implies !precedes(
        #[trigger] s[j],
        #[trigger] s[i],
    ) by {
        lemma_precedes_total_order(s[i], s[j], s[i]);
    }
}

/// An ascending sequence holds no rank twice.
pub proof fn lemma_ascending_has_no_duplicates(s: Seq<Rank>)
    requires
        ascending(s),
    ensures
        s.no_duplicates(),
{
    assert forall|i: int, j: int| 0 <= i < s.len() && 0 <= j < s.len() && i != j implies s[i]
        != s[j] by {
        lemma_precedes_total_order(s[i], s[j], s[i]);
        if i < j {
            assert(precedes(s[i], s[j]));
        } else {
            assert(precedes(s[j], s[i]));
        }
    }
}

/// A rank put between those below it and those above it leaves an ascending
/// sequence ascending.
proof fn lemma_insert_keeps_ascending(s: Seq<Rank>, at: int, rank: Rank)
    requires
        ascending(s),
        0 <= at <= s.len(),
        forall|i: int| 0 <= i < at ==> precedes(#[trigger] s[i], rank),
        forall|i: int| at <= i < s.len() ==> !precedes(#[trigger] s[i], rank),
        at < s.len() ==> s[at] != rank,
    ensures
        ascending(s.insert(at, rank)),
{
    let t = s.insert(at, rank);
    assert forall|i: int, j: int| 0 <= i < j < t.len() implies precedes(
        #[trigger] t[i],
        #[trigger] t[j],
    ) by {
        if j == at {
            assert(t[i] == s[i]);
        } else if i == at {
            assert(t[j] == s[j - 1]);
            lemma_precedes_total_order(rank, s[at], s[j - 1]);
            lemma_precedes_total_order(s[at], rank, rank);
            if j - 1 > at {
                assert(precedes(s[at], s[j - 1]));
            }
        } else if i < at && j > at {
            assert(t[j] == s[j - 1] && t[i] == s[i]);
            if i == j - 1 {
            } else {
                assert(precedes(s[i], s[j - 1]));
            }
        } else if i < at {
            assert(t[j] == s[j] && t[i] == s[i]);
        } else {
            assert(t[j] == s[j - 1] && t[i] == s[i - 1]);
        }
    }
}

/// A sequence with one value put in holds that value and what it held.
proof fn lemma_insert_into_set(s: Seq<Rank>, at: int, rank: Rank)
    requires
        0 <= at <= s.len(),
    ensures
        s.insert(at, rank).to_set() == s.to_set().insert(rank),
{
    let t = s.insert(at, rank);
    assert forall|r: Rank| t.to_set().contains(r) <==> s.to_set().insert(rank).contains(r) by {
        if t.contains(r) {
            let i = choose|i: int| 0 <= i < t.len() && t[i] == r;
            if i < at {
                assert(s[i] == r);
            } else if i > at {
                assert(s[i - 1] == r);
            }
        }
        if s.contains(r) {
            let i = choose|i: int| 0 <= i < s.len() && s[i] == r;
            if i < at {
                assert(t[i] == r);
            } else {
                assert(t[i + 1] == r);
            }
        }
        if r == rank {
            assert(t[at] == r);
        }
    }
    assert(t.to_set() =~= s.to_set().insert(rank));
}

/// The top of an ascending sequence is the top of what the sequence holds.
pub proof fn lemma_top_of_ascending(seen: Seq<Rank>, limit: nat)
    requires
        ascending(seen),
    ensures
        is_top(top(seen, limit), seen.to_set(), limit),
{
    let snapshot = top(seen, limit);
    let n = seen.len() as int;
    lemma_ascending_has_no_duplicates(seen);
    seen.unique_seq_to_set();
    assert forall|i: int| 0 <= i < snapshot.len() implies seen.to_set().contains(
        #[trigger] snapshot[i],
    ) by {
        assert(seen[n - 1 - i] == snapshot[i]);
    }
    assert forall|i: int, j: int| 0 <= i < j < snapshot.len() implies precedes(
        #[trigger] snapshot[j],
        #[trigger] snapshot[i],
    ) by {
        assert(precedes(seen[n - 1 - j], seen[n - 1 - i]));
    }
    assert forall|r: Rank, i: int|
        #![trigger seen.to_set().contains(r), snapshot[i]]
        seen.to_set().contains(r) && !snapshot.contains(r) && 0 <= i
            < snapshot.len() implies precedes(r, snapshot[i]) by {
        let k = choose|k: int| 0 <= k < seen.len() && seen[k] == r;
        if k >= n - snapshot.len() {
            assert(snapshot[n - 1 - k] == r);
        }
        assert(precedes(seen[k], seen[n - 1 - i]));
    }
}

/// Two descending sequences that hold the same ranks are the same sequence.
pub proof fn lemma_descending_is_determined(a: Seq<Rank>, b: Seq<Rank>)
    requires
        descending(a),
        descending(b),
        a.to_set() == b.to_set(),
    ensures
        a == b,
    decreases a.len(),
{
    lemma_descending_has_no_duplicates(a);
    lemma_descending_has_no_duplicates(b);
    a.unique_seq_to_set();
    b.unique_seq_to_set();
    if a.len() > 0 {
        // The first of each is the highest of the ranks held, so they agree.
        assert(b.to_set().contains(a[0]));
        assert(a.to_set().contains(b[0]));
        let i = choose|i: int| 0 <= i < b.len() && b[i] == a[0];
        let j = choose|j: int| 0 <= j < a.len() && a[j] == b[0];
        if i > 0 && j > 0 {
            assert(precedes(b[i], b[0]));
            assert(precedes(a[j], a[0]));
            lemma_precedes_total_order(a[0], b[0], a[0]);
        }
        assert(a[0] == b[0]);
        let (x, y) = (a.skip(1), b.skip(1));
        assert forall|r: Rank| x.to_set().contains(r) <==> y.to_set().contains(r) by {
            if x.contains(r) {
                let k = choose|k: int| 0 <= k < x.len() && x[k] == r;
                assert(a[k + 1] == r);
                assert(b.to_set().contains(r));
                let m = choose|m: int| 0 <= m < b.len() && b[m] == r;
                assert(y[m - 1] == r);
            }
            if y.contains(r) {
                let k = choose|k: int| 0 <= k < y.len() && y[k] == r;
                assert(b[k + 1] == r);
                assert(a.to_set().contains(r));
                let m = choose|m: int| 0 <= m < a.len() && a[m] == r;
                assert(x[m - 1] == r);
            }
        }
        assert(x.to_set() =~= y.to_set());
        assert(descending(x)) by {
            assert forall|i: int, j: int| 0 <= i < j < x.len() implies precedes(
                #[trigger] x[j],
                #[trigger] x[i],
            ) by {
                assert(precedes(a[j + 1], a[i + 1]));
            }
        }
        assert(descending(y)) by {
            assert forall|i: int, j: int| 0 <= i < j < y.len() implies precedes(
                #[trigger] y[j],
                #[trigger] y[i],
            ) by {
                assert(precedes(b[j + 1], b[i + 1]));
            }
        }
        lemma_descending_is_determined(x, y);
        assert(a =~= seq![a[0]] + x);
        assert(b =~= seq![b[0]] + y);
    } else {
        assert(a =~= b);
    }
}

/// A descending sequence holds no rank twice.
pub proof fn lemma_descending_has_no_duplicates(s: Seq<Rank>)
    requires
        descending(s),
    ensures
        s.no_duplicates(),
{
    assert forall|i: int, j: int| 0 <= i < s.len() && 0 <= j < s.len() && i != j implies s[i]
        != s[j] by {
        lemma_precedes_total_order(s[i], s[j], s[i]);
        if i < j {
            assert(precedes(s[j], s[i]));
        } else {
            assert(precedes(s[i], s[j]));
        }
    }
}

/// A snapshot asked for twice, with no file taken in between, is the same
/// both times.
pub proof fn lemma_snapshot_twice_is_the_same(
    set: WorkingSet,
    limit: usize,
    first: Vec<(FileSize, String)>,
    second: Vec<(FileSize, String)>,
)
    requires
        call_ensures(WorkingSet::snapshot, (&set, limit), first),
        call_ensures(WorkingSet::snapshot, (&set, limit), second),
    ensures
        ranks(first@) == ranks(second@),
{
}

/// A set of files has one top: two snapshots of the same files with the
/// same limit are the same, rank for rank.
pub proof fn lemma_top_is_determined(
    first: Seq<Rank>,
    second: Seq<Rank>,
    seen: Set<Rank>,
    limit: nat,
)
    requires
        is_top(first, seen, limit),
        is_top(second, seen, limit),
    ensures
        first == second,
{
    lemma_descending_has_no_duplicates(first);
    lemma_descending_has_no_duplicates(second);
    first.unique_seq_to_set();
    second.unique_seq_to_set();
    vstd::seq_lib::seq_to_set_is_finite(first);
    vstd::seq_lib::seq_to_set_is_finite(second);
    let (a, b) = (first.to_set(), second.to_set());
    if exists|r: Rank| a.contains(r) && !b.contains(r) {
        let x = choose|r: Rank| a.contains(r) && !b.contains(r);
        lemma_missing_from_both_sides(a, b, x);
        let y = choose|r: Rank| b.contains(r) && !a.contains(r);
        let i = choose|i: int| 0 <= i < first.len() && first[i] == x;
        let j = choose|j: int| 0 <= j < second.len() && second[j] == y;
        assert(seen.contains(second[j]));
        assert(seen.contains(first[i]));
        assert(precedes(y, first[i]));
        assert(precedes(x, second[j]));
        lemma_precedes_total_order(x, y, x);
    }
    if exists|r: Rank| b.contains(r) && !a.contains(r) {
        let y = choose|r: Rank| b.contains(r) && !a.contains(r);
        lemma_missing_from_both_sides(b, a, y);
    }
    assert(a =~= b);
    lemma_descending_is_determined(first, second);
}

/// A limit that is no less than the number of files seen leaves none out:
/// the snapshot holds every file seen, once, and nothing besides.
pub proof fn lemma_limit_beyond_the_files(snapshot: Seq<Rank>, seen: Set<Rank>, limit: nat)
    requires
        seen.finite(),
        is_top(snapshot, seen, limit),
        limit >= seen.len(),
    ensures
        snapshot.len() == seen.len(),
        snapshot.to_set() == seen,
        snapshot.no_duplicates(),
{
    lemma_descending_has_no_duplicates(snapshot);
    snapshot.unique_seq_to_set();
    vstd::seq_lib::seq_to_set_is_finite(snapshot);
    assert(snapshot.to_set().subset_of(seen)) by {
        assert forall|r: Rank| snapshot.to_set().contains(r) implies seen.contains(r) by {
            let i = choose|i: int| 0 <= i < snapshot.len() && snapshot[i] == r;
            assert(seen.contains(snapshot[i]));
        }
    }
    vstd::set_lib::lemma_subset_equality(snapshot.to_set(), seen);
}

/// Where no file was seen the snapshot is empty, whatever the limit.
pub proof fn lemma_top_of_nothing(snapshot: Seq<Rank>, limit: nat)
    requires
        is_top(snapshot, Set::<Rank>::empty(), limit),
    ensures
        snapshot == Seq::<Rank>::empty(),
{
    assert(snapshot =~= Seq::<Rank>::empty());
}

/// Of two finite sets of one size, where one holds what the other lacks, the
/// other holds something that the first lacks.
proof fn lemma_missing_from_both_sides(a: Set<Rank>, b: Set<Rank>, x: Rank)
    requires
        a.finite(),
        b.finite(),
        a.len() == b.len(),
        a.contains(x),
        !b.contains(x),
    ensures
        exists|r: Rank| b.contains(r) && !a.contains(r),
{
    if forall|r: Rank| b.contains(r) ==> a.contains(r) {
        assert(b.subset_of(a.remove(x)));
        vstd::set_lib::lemma_len_subset(b, a.remove(x));
    }
}

} // verus!
