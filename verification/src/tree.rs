//! Directory trees, and what a walk through one hands out.
//!
//! A tree here is what a filesystem holds below a directory at one moment,
//! written down: files with their sizes, directories with their entries in
//! the order in which they are read. [`theorem_walk_hands_out_the_files`]
//! says that a walk whose driver answers from such a tree hands out the
//! files of the tree, depth first, and then is over.
use crate::files::{lemma_run_in_parts, Reply, Stage, Walk};
use crate::hidden;
use crate::rank::Rank;
use crate::select::{is_top, lemma_limit_beyond_the_files, lemma_top_of_nothing};
use vstd::prelude::*;

verus! {

/// What a directory holds under one name.
pub enum Tree {
    /// Something that is not a directory, of this size in bytes.
    File { path: Seq<char>, size: u64 },
    /// A directory and its entries, in the order in which they are read.
    Directory { path: Seq<char>, entries: Seq<Tree> },
}

impl Tree {
    /// The path of the file or directory.
    pub open spec fn path(self) -> Seq<char> {
        match self {
            Tree::File { path, .. } => path,
            Tree::Directory { path, .. } => path,
        }
    }

    /// How many directories deep the tree is: none for a file, one more than
    /// its deepest entry for a directory.
    pub open spec fn height(self) -> nat
        decreases self,
    {
        match self {
            Tree::File { .. } => 0,
            Tree::Directory { entries, .. } => 1 + height_of(entries),
        }
    }

    /// The files that a walk hands out of the tree, in order: the file
    /// itself, or the files of the directory's entries, one entry after the
    /// other. With hidden entries ignored, a hidden file or directory holds
    /// none.
    pub open spec fn files(self, ignore_hidden: bool) -> Seq<Rank>
        decreases self,
    {
        if ignore_hidden && hidden(self.path()) {
            Seq::empty()
        } else {
            match self {
                Tree::File { path, size } => seq![(size, path)],
                Tree::Directory { entries, .. } => files_of(entries, ignore_hidden),
            }
        }
    }

    /// What a driver answers a walk while it deals with this entry of a
    /// directory, when everything can be read.
    pub open spec fn replies(self, ignore_hidden: bool) -> Seq<Reply>
        decreases self,
    {
        seq![Reply::Listed(self.path())] + if ignore_hidden && hidden(self.path()) {
            Seq::empty()
        } else {
            match self {
                Tree::File { size, .. } => seq![Reply::Other, Reply::Measured(size)],
                Tree::Directory { entries, .. } => seq![Reply::Directory, Reply::Opened]
                    + replies_of(entries, ignore_hidden),
            }
        }
    }
}

/// The height of the highest of `entries`.
pub open spec fn height_of(entries: Seq<Tree>) -> nat
    decreases entries,
{
    if entries.len() == 0 {
        0
    } else {
        let (first, rest) = (entries[0].height(), height_of(entries.drop_first()));
        if first >= rest {
            first
        } else {
            rest
        }
    }
}

/// The files that a walk hands out of the entries of a directory: those of
/// the first entry, then those of the next, to the last.
pub open spec fn files_of(entries: Seq<Tree>, ignore_hidden: bool) -> Seq<Rank>
    decreases entries,
{
    if entries.len() == 0 {
        Seq::empty()
    } else {
        entries[0].files(ignore_hidden) + files_of(entries.drop_first(), ignore_hidden)
    }
}

/// What a driver answers a walk while it reads a directory with these
/// entries to its end, when everything can be read.
pub open spec fn replies_of(entries: Seq<Tree>, ignore_hidden: bool) -> Seq<Reply>
    decreases entries,
{
    if entries.len() == 0 {
        seq![Reply::Drained]
    } else {
        entries[0].replies(ignore_hidden) + replies_of(entries.drop_first(), ignore_hidden)
    }
}

/// Whether `walk` is about to read the next entry of a directory.
pub open spec fn reads(walk: Walk) -> bool {
    walk.stage == Stage::Reading && walk.depth >= 1 && walk.path == Seq::<char>::empty()
}

/// A walk that reads a directory deals with one entry and is back where it
/// was, having handed out the files of that entry.
pub proof fn lemma_walk_through_entry(walk: Walk, tree: Tree)
    requires
        reads(walk),
        walk.depth + tree.height() <= usize::MAX,
    ensures
        walk.run(tree.replies(walk.ignore_hidden)) == (walk, tree.files(walk.ignore_hidden)),
    decreases tree,
{
    let h = walk.ignore_hidden;
    let listed = seq![Reply::Listed(tree.path())];
    assert(listed.drop_first() =~= Seq::<Reply>::empty());
    assert(walk.run(listed) == (walk.step(listed[0]).0, Seq::<Rank>::empty())) by {
        reveal_with_fuel(Walk::run, 2);
    }
    if h && hidden(tree.path()) {
        assert(tree.replies(h) =~= listed);
    } else {
        let held = walk.holding(Stage::Probing, tree.path());
        match tree {
            Tree::File { path, size } => {
                let rest = seq![Reply::Other, Reply::Measured(size)];
                assert(rest.drop_first() =~= seq![Reply::Measured(size)]);
                assert(rest.drop_first().drop_first() =~= Seq::<Reply>::empty());
                assert(held.run(rest) == (walk, seq![(size, path)])) by {
                    reveal_with_fuel(Walk::run, 3);
                    assert(seq![(size, path)] + Seq::<Rank>::empty() =~= seq![(size, path)]);
                }
                lemma_run_in_parts(walk, listed, rest);
                assert(Seq::<Rank>::empty() + seq![(size, path)] =~= seq![(size, path)]);
            },
            Tree::Directory { path, entries } => {
                let enter = seq![Reply::Directory, Reply::Opened];
                let inside = walk.reading(walk.depth + 1);
                assert(enter.drop_first() =~= seq![Reply::Opened]);
                assert(enter.drop_first().drop_first() =~= Seq::<Reply>::empty());
                assert(held.run(enter) == (inside, Seq::<Rank>::empty())) by {
                    reveal_with_fuel(Walk::run, 3);
                }
                lemma_walk_through_entries(inside, entries);
                assert(inside.reading((inside.depth - 1) as nat) == walk);
                let below = replies_of(entries, h);
                lemma_run_in_parts(held, enter, below);
                lemma_run_in_parts(walk, listed, enter + below);
                assert(tree.replies(h) =~= listed + (enter + below));
                assert(Seq::<Rank>::empty() + files_of(entries, h) =~= files_of(entries, h));
            },
        }
    }
}

/// A walk that reads a directory goes through its entries and leaves it,
/// having handed out their files: it is back in the directory above, or
/// over where there is none.
pub proof fn lemma_walk_through_entries(walk: Walk, entries: Seq<Tree>)
    requires
        reads(walk),
        walk.depth + height_of(entries) <= usize::MAX,
    ensures
        walk.run(replies_of(entries, walk.ignore_hidden)) == (
            if walk.depth > 1 {
                walk.reading((walk.depth - 1) as nat)
            } else {
                walk.stopped()
            },
            files_of(entries, walk.ignore_hidden),
        ),
    decreases entries,
{
    let h = walk.ignore_hidden;
    if entries.len() == 0 {
        let drained = seq![Reply::Drained];
        assert(drained.drop_first() =~= Seq::<Reply>::empty());
        assert(walk.run(drained).1 =~= Seq::<Rank>::empty() && walk.run(drained).0
            == walk.step(Reply::Drained).0) by {
            reveal_with_fuel(Walk::run, 2);
        }
    } else {
        lemma_walk_through_entry(walk, entries[0]);
        lemma_walk_through_entries(walk, entries.drop_first());
        lemma_run_in_parts(walk, entries[0].replies(h), replies_of(entries.drop_first(), h));
    }
}

/// A walk through a directory tree hands out the files of the tree, depth
/// first, and is over when the last answer is in. With hidden entries
/// ignored, the files are those that are not hidden and lie below nothing
/// hidden.
///
/// This holds of a tree in which everything can be read and whose
/// directories are nested fewer than `usize::MAX` deep.
pub proof fn theorem_walk_hands_out_the_files(entries: Seq<Tree>, ignore_hidden: bool)
    requires
        height_of(entries) < usize::MAX,
    ensures
        Walk::start(ignore_hidden).run(replies_of(entries, ignore_hidden)) == (
            Walk::start(ignore_hidden).stopped(),
            files_of(entries, ignore_hidden),
        ),
{
    lemma_walk_through_entries(Walk::start(ignore_hidden), entries);
}

/// A walk through an empty directory hands out nothing and is over, without
/// a failure.
pub proof fn lemma_walk_through_an_empty_directory(ignore_hidden: bool)
    ensures
        replies_of(Seq::<Tree>::empty(), ignore_hidden) == seq![Reply::Drained],
        Walk::start(ignore_hidden).run(seq![Reply::Drained]) == (
            Walk::start(ignore_hidden).stopped(),
            Seq::<Rank>::empty(),
        ),
{
    theorem_walk_hands_out_the_files(Seq::<Tree>::empty(), ignore_hidden);
}

/// A hidden directory holds no file for a walk that ignores hidden entries,
/// whatever is in it; for a walk that does not, it holds what its entries
/// hold. A directory with nothing but a hidden directory in it yields
/// nothing to the first and the files of the hidden directory to the second.
pub proof fn lemma_hidden_directory(directory: Tree)
    requires
        directory is Directory,
        hidden(directory.path()),
    ensures
        directory.files(true) == Seq::<Rank>::empty(),
        directory.files(false) == files_of(directory->entries, false),
        files_of(seq![directory], true) == Seq::<Rank>::empty(),
        files_of(seq![directory], false) == files_of(directory->entries, false),
{
    let within = seq![directory];
    assert(within.drop_first() =~= Seq::<Tree>::empty());
    reveal_with_fuel(files_of, 2);
    assert(files_of(within, true) =~= Seq::<Rank>::empty());
    assert(files_of(within, false) =~= files_of(directory->entries, false));
}

/// A scan of a tree, from the first answer to the last snapshot.
///
/// The walk hands out the files of the tree and is over. The snapshot that
/// the scan ends with, the top of those files, is empty for an empty
/// directory, and for a directory that holds nothing but a hidden directory
/// where hidden entries are ignored; with a limit that is no less than the
/// number of files it holds every file of the tree, and nothing besides.
pub proof fn theorem_scan_of_a_tree(
    entries: Seq<Tree>,
    ignore_hidden: bool,
    limit: nat,
    snapshot: Seq<Rank>,
)
    requires
        height_of(entries) < usize::MAX,
        is_top(snapshot, files_of(entries, ignore_hidden).to_set(), limit),
    ensures
        Walk::start(ignore_hidden).run(replies_of(entries, ignore_hidden)) == (
            Walk::start(ignore_hidden).stopped(),
            files_of(entries, ignore_hidden),
        ),
        entries.len() == 0 ==> snapshot == Seq::<Rank>::empty(),
        ignore_hidden && entries.len() == 1 && entries[0] is Directory && hidden(entries[0].path())
            ==> snapshot == Seq::<Rank>::empty(),
        limit >= files_of(entries, ignore_hidden).to_set().len() ==> snapshot.to_set() == files_of(
            entries,
            ignore_hidden,
        ).to_set(),
{
    let files = files_of(entries, ignore_hidden);
    theorem_walk_hands_out_the_files(entries, ignore_hidden);
    vstd::seq_lib::seq_to_set_is_finite(files);
    if limit >= files.to_set().len() {
        lemma_limit_beyond_the_files(snapshot, files.to_set(), limit);
    }
    if entries.len() == 0 {
        assert(files.to_set() =~= Set::<Rank>::empty());
        lemma_top_of_nothing(snapshot, limit);
    }
    if ignore_hidden && entries.len() == 1 && entries[0] is Directory && hidden(entries[0].path()) {
        lemma_hidden_directory(entries[0]);
        assert(entries =~= seq![entries[0]]);
        assert(files.to_set() =~= Set::<Rank>::empty());
        lemma_top_of_nothing(snapshot, limit);
    }
}

} // verus!
