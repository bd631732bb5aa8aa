//! Find the largest files under a directory tree.
//!
//! The library holds what a scan decides and computes: how a directory tree
//! is walked ([`files`], [`tree`]), how files are ranked ([`rank`]), which
//! of them are the largest seen so far ([`select`]), when that is reported
//! ([`scan`]), and how it is written ([`bytes`], [`screen`], [`entries`]).
//! It opens no file and reads no clock: whoever drives a scan hands it what
//! the filesystem answered and what time it is.
//!
//! Paths are strings with `/` between their components.
use vstd::prelude::*;
use vstd::utf8::encode_utf8;

pub mod bytes;
pub mod entries;
pub mod files;
pub mod rank;
pub mod scan;
pub mod screen;
pub mod select;
pub mod tree;

verus! {

/// The byte that parts the components of a path.
pub const SEPARATOR: u8 = 0x2f;

/// The byte that a hidden name begins with.
pub const DOT: u8 = 0x2e;

/// The size of a file in bytes.
#[derive(Debug, Eq, Ord, PartialEq, PartialOrd)]
pub struct FileSize(u64);

impl Clone for FileSize {
    fn clone(&self) -> (size: FileSize)
        ensures
            size == *self,
    {
        FileSize(self.0)
    }
}

impl View for FileSize {
    type V = u64;

    closed spec fn view(&self) -> u64 {
        self.0
    }
}

impl From<u64> for FileSize {
    fn from(value: u64) -> (size: FileSize)
        ensures
            size@ == value,
    {
        FileSize(value)
    }
}

impl vstd::std_specs::convert::FromSpecImpl<u64> for FileSize {
    open spec fn obeys_from_spec() -> bool {
        true
    }

    closed spec fn from_spec(v: u64) -> FileSize {
        FileSize(v)
    }
}

impl FileSize {
    /// The number of bytes.
    pub fn bytes(&self) -> (bytes: u64)
        ensures
            bytes == self@,
    {
        self.0
    }

    /// Writes the size as a number and a unit, such as `34 KB`.
    pub fn to_string(&self) -> (text: String)
        ensures
            text@ == bytes::humanized(self@),
    {
        bytes::humanize(self.0)
    }
}

impl rank::Ranked for (FileSize, String) {
    open spec fn rank(&self) -> rank::Rank {
        self@
    }

    fn size_in_bytes(&self) -> (size: u64) {
        self.0.bytes()
    }

    fn path_str(&self) -> (path: &str) {
        self.1.as_str()
    }
}

/// The `limit` largest of `files`, the largest first: what a scan that came
/// across `files` ends with. Files of one size are ordered by path, the last
/// path first, and a file that occurs twice in `files` counts once.
pub fn find_top_n_largest_files(files: Vec<(FileSize, String)>, limit: usize) -> (largest: Vec<
    (FileSize, String),
>)
    ensures
        select::is_top(rank::ranks(largest@), rank::ranks(files@).to_set(), limit as nat),
{
    let mut rest = files;
    let mut seen = select::WorkingSet::new();
    assert(rank::ranks(files@.skip(files@.len() as int)) =~= seen@);
    while rest.len() > 0
        invariant
            rest.len() <= files.len(),
            rest@ == files@.take(rest.len() as int),
            seen@.to_set() == rank::ranks(files@.skip(rest.len() as int)).to_set(),
        decreases rest.len(),
    {
        let (size, path) = rest.pop().unwrap();
        seen.insert(size, path);
        proof {
            let k = rest.len() as int;
            let (before, after) = (rank::ranks(files@.skip(k + 1)), rank::ranks(files@.skip(k)));
            assert(rest@ =~= files@.take(k));
            assert(after =~= seq![(size@, path@)] + before);
            vstd::seq_lib::seq_to_set_distributes_over_add(seq![(size@, path@)], before);
            assert(seq![(size@, path@)].to_set() =~= set![(size@, path@)]) by {
                assert(seq![(size@, path@)][0] == (size@, path@));
            }
            assert(after.to_set() =~= before.to_set().insert((size@, path@)));
        }
    }
    assert(files@.skip(0) =~= files@);
    seen.snapshot(limit)
}

/// A walk of the directory that the caller tried to open. Where the
/// directory could not be opened there is no walk: the caller's error comes
/// back, before anything is scanned.
pub fn find_files_in_path<E>(root: Result<(), E>, ignore_hidden: bool) -> (walk: Result<
    files::FileIter,
    E,
>)
    ensures
        match root {
            Ok(_) => walk matches Ok(w) && w@ == files::Walk::start(ignore_hidden),
            Err(e) => walk == Err::<files::FileIter, E>(e),
        },
{
    match root {
        Ok(_) => Ok(files::FileIter::new(ignore_hidden)),
        Err(e) => Err(e),
    }
}

/// A path without what follows its last component: separators, and
/// components that are a single dot.
pub open spec fn trimmed(path: Seq<u8>) -> Seq<u8>
    decreases path.len(),
{
    if path.len() == 0 {
        path
    } else if path.last() == SEPARATOR {
        trimmed(path.drop_last())
    } else if path.last() == DOT && (path.len() == 1 || path[path.len() - 2] == SEPARATOR) {
        trimmed(path.drop_last())
    } else {
        path
    }
}

/// Where the component starts that `path` ends with: behind the last
/// separator, or at the start of a path without one.
pub open spec fn last_component_start(path: Seq<u8>) -> int
    decreases path.len(),
{
    if path.len() == 0 || path.last() == SEPARATOR {
        path.len() as int
    } else {
        last_component_start(path.drop_last())
    }
}

/// The last component of a path, as bytes. Separators at the end of the path
/// and components that are a single dot do not count. It is empty where the
/// path has no component.
pub open spec fn file_name(path: Seq<u8>) -> Seq<u8> {
    let t = trimmed(path);
    t.skip(last_component_start(t))
}

/// Whether a path names a hidden file or directory: its last component
/// begins with a dot, and is not the two dots that stand for the directory
/// above.
pub open spec fn hidden(path: Seq<char>) -> bool {
    let name = file_name(encode_utf8(path));
    name.len() > 0 && name[0] == DOT && name != seq![DOT, DOT]
}

/// Whether `path` names a hidden file or directory.
pub fn is_hidden_path(path: &str) -> (is_hidden: bool)
    ensures
        is_hidden == hidden(path@),
{
    let bytes = path.as_bytes();
    let mut end: usize = bytes.len();
    assert(bytes@.take(end as int) =~= bytes@);
    while end > 0 && (bytes[end - 1] == SEPARATOR || (bytes[end - 1] == DOT && (end == 1
        || bytes[end - 2] == SEPARATOR)))
        invariant
            end <= bytes.len(),
            trimmed(bytes@) == trimmed(bytes@.take(end as int)),
        decreases end,
    {
        assert(bytes@.take(end as int).drop_last() =~= bytes@.take(end - 1));
        end -= 1;
    }
    let ghost t = bytes@.take(end as int);
    assert(trimmed(t) == t);
    let mut start: usize = end;
    assert(t.take(start as int) =~= t);
    while start > 0 && bytes[start - 1] != SEPARATOR
        invariant
            start <= end <= bytes.len(),
            t == bytes@.take(end as int),
            last_component_start(t) == last_component_start(t.take(start as int)),
        decreases start,
    {
        assert(t.take(start as int).drop_last() =~= t.take(start - 1));
        start -= 1;
    }
    assert(last_component_start(t) == start);
    let ghost name = t.skip(start as int);
    assert(name == file_name(bytes@));
    assert(name.len() == end - start);
    if end > start && bytes[start] == DOT {
        assert(name[0] == DOT);
        if end - start == 2 && bytes[start + 1] == DOT {
            assert(name =~= seq![DOT, DOT]);
            false
        } else {
            proof {
                if name.len() == 2 {
                    assert(name[1] == bytes@[start + 1]);
                }
            }
            true
        }
    } else {
        false
    }
}

} // verus!
