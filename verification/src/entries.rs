//! Files as entries of a listing, largest first.
//!
//! An entry is written as its size, a space and its path. To set the lines
//! of a listing in columns is left to whoever shows them.
use crate::bytes::{humanize, humanized};
use crate::rank::{falling, lower_bound, ranks, rising, Rank, Ranked};
use vstd::prelude::*;

verus! {

/// A file: its size in bytes and its path.
#[derive(Debug, Eq, PartialEq, Ord, PartialOrd)]
pub struct Entry {
    size: u64,
    path: String,
}

impl View for Entry {
    type V = Rank;

    closed spec fn view(&self) -> Rank {
        (self.size, self.path@)
    }
}

impl Ranked for Entry {
    open spec fn rank(&self) -> Rank {
        self@
    }

    fn size_in_bytes(&self) -> (size: u64) {
        self.size
    }

    fn path_str(&self) -> (path: &str) {
        self.path.as_str()
    }
}

/// The line that an entry of rank `rank` is written as: the size, a space,
/// the path.
pub open spec fn entry_line(rank: Rank) -> Seq<char> {
    humanized(rank.0) + seq![' '] + rank.1
}

impl Entry {
    /// The entry of the file at `path`, `size` bytes long.
    pub fn new(path: &str, size: u64) -> (entry: Entry)
        ensures
            entry@ == (size, path@),
    {
        Entry { size, path: path.to_owned() }
    }

    /// The size in bytes.
    pub fn size(&self) -> (size: u64)
        ensures
            size == self@.0,
    {
        self.size
    }

    /// The path.
    pub fn path(&self) -> (path: &str)
        ensures
            path@ == self@.1,
    {
        self.path.as_str()
    }

    /// Writes the entry as one line of a listing, such as
    /// `34 KB /path/to/file.txt`.
    pub fn to_string(&self) -> (line: String)
        ensures
            line@ == entry_line(self@),
    {
        let mut line = humanize(self.size);
        proof {
            reveal_strlit(" ");
        }
        line.append(" ");
        line.append(self.path.as_str());
        assert(line@ =~= entry_line(self@));
        line
    }
}

/// The listing of a directory that the caller tried to open: the files
/// found below it, put in order as [`list`] does. Where the directory could
/// not be opened there is no listing: the caller's error comes back, and no
/// entry with it.
pub fn list_under<E>(root: Result<(), E>, entries: Vec<Entry>) -> (listed: Result<Vec<Entry>, E>)
    ensures
        match root {
            Ok(_) => listed matches Ok(sorted) && sorted@.to_multiset() == entries@.to_multiset()
                && falling(ranks(sorted@)),
            Err(e) => listed == Err::<Vec<Entry>, E>(e),
        },
{
    match root {
        Ok(_) => Ok(list(entries)),
        Err(e) => Err(e),
    }
}

/// Puts the files of a listing in order, largest first; files of one size
/// are ordered by path, last path first. Every file of `entries` is in the
/// result, as often as it is in `entries`.
pub fn list(entries: Vec<Entry>) -> (sorted: Vec<Entry>)
    ensures
        sorted@.to_multiset() == entries@.to_multiset(),
        falling(ranks(sorted@)),
{
    let mut rest = entries;
    let mut risen: Vec<Entry> = Vec::new();
    assert(entries@.skip(entries@.len() as int) =~= risen@);
    while rest.len() > 0
        invariant
            rest@ == entries@.take(rest.len() as int),
            rest.len() <= entries.len(),
            rising(ranks(risen@)),
            risen@.to_multiset() == entries@.skip(rest.len() as int).to_multiset(),
        decreases rest.len(),
    {
        let ghost arranged = risen@;
        let entry = rest.pop().unwrap();
        let at = lower_bound(&risen, &entry);
        risen.insert(at, entry);
        proof {
            let k = rest.len() as int;
            assert(rest@ =~= entries@.take(k));
            assert(entries@.skip(k) =~= seq![entry] + entries@.skip(k + 1));
            lemma_multiset_of_cons(entry, entries@.skip(k + 1));
            vstd::seq_lib::to_multiset_insert(arranged, at as int, entry);
            lemma_insert_keeps_rising(ranks(arranged), at as int, entry.rank());
            assert(ranks(risen@) =~= ranks(arranged).insert(at as int, entry.rank()));
        }
    }
    assert(entries@.skip(0) =~= entries@);
    let ghost arranged = risen@;
    let mut sorted: Vec<Entry> = Vec::new();
    while risen.len() > 0
        invariant
            risen.len() <= arranged.len(),
            risen@ == arranged.take(risen.len() as int),
            sorted@ == arranged.skip(risen.len() as int).reverse(),
        decreases risen.len(),
    {
        let entry = risen.pop().unwrap();
        sorted.push(entry);
        assert(risen@ =~= arranged.take(risen.len() as int));
        assert(sorted@ =~= arranged.skip(risen.len() as int).reverse());
    }
    proof {
        assert(sorted@ =~= arranged.reverse());
        arranged.lemma_reverse_to_multiset();
        assert forall|i: int, j: int| 0 <= i < j < sorted@.len() implies !crate::rank::precedes(
            #[trigger] ranks(sorted@)[i],
            #[trigger] ranks(sorted@)[j],
        ) by {
            let n = arranged.len();
            assert(ranks(sorted@)[i] == ranks(arranged)[n - 1 - i]);
            assert(ranks(sorted@)[j] == ranks(arranged)[n - 1 - j]);
        }
    }
    sorted
}

/// A sequence holds what its first value and the rest of it hold.
proof fn lemma_multiset_of_cons<T>(first: T, rest: Seq<T>)
    ensures
        (seq![first] + rest).to_multiset() == rest.to_multiset().insert(first),
{
    vstd::seq_lib::to_multiset_insert(rest, 0, first);
    assert(rest.insert(0, first) =~= seq![first] + rest);
}

/// A rank put where all before it are below it, and none after it is, leaves
/// a rising sequence rising.
proof fn lemma_insert_keeps_rising(s: Seq<Rank>, at: int, rank: Rank)
    requires
        rising(s),
        0 <= at <= s.len(),
        forall|i: int| 0 <= i < at ==> crate::rank::precedes(#[trigger] s[i], rank),
        forall|i: int| at <= i < s.len() ==> !crate::rank::precedes(#[trigger] s[i], rank),
    ensures
        rising(s.insert(at, rank)),
{
    let t = s.insert(at, rank);
    assert forall|i: int, j: int| 0 <= i < j < t.len() implies !crate::rank::precedes(
        #[trigger] t[j],
        #[trigger] t[i],
    ) by {
        if j == at {
            crate::rank::lemma_precedes_total_order(s[i], rank, rank);
        } else if i == at {
            assert(t[j] == s[j - 1]);
        } else if i < at && j > at {
            assert(t[j] == s[j - 1]);
        } else if i < at {
            assert(t[j] == s[j] && t[i] == s[i]);
        } else {
            assert(t[j] == s[j - 1] && t[i] == s[i - 1]);
        }
    }
}

} // verus!
