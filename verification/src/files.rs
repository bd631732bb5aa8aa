//! Files, and the walk that finds them under a directory.
//!
//! A walk goes through a directory tree depth first and hands out every file
//! that is not a directory. It keeps the directories it is inside of open,
//! the innermost last, and works on the innermost: it reads the next entry,
//! enters it where it is a directory, hands it out where it is not, and
//! leaves the directory when no entry is left. With hidden entries ignored,
//! an entry whose name begins with a dot is passed over, and with it
//! everything below it.
//!
//! The walk itself touches no filesystem. [`FileIter`] decides; a driver
//! does what it asks for ([`Request`]) and tells it what came of it
//! ([`Answer`]). Whatever cannot be read ends the walk: the files handed out
//! until then stand, and nothing is reported, so a walk that ended early
//! looks like one that was complete. A driver that wants to tell the two
//! apart remembers what it answered. Between two answers a driver can call
//! the walk off ([`FileIter::cancel`]).
use crate::bytes::{humanize, humanized};
use crate::rank::{Rank, Ranked};
use crate::{hidden, is_hidden_path};
use vstd::prelude::*;

verus! {

/// The size of a file in bytes.
#[derive(Debug, Copy, Clone, Eq, PartialEq, Ord, PartialOrd)]
pub struct Size(u64);

impl View for Size {
    type V = u64;

    closed spec fn view(&self) -> u64 {
        self.0
    }
}

impl Size {
    /// The number of bytes.
    pub fn bytes(&self) -> (bytes: u64)
        ensures
            bytes == self@,
    {
        self.0
    }

    /// Writes the size as a number and a unit, such as `34 KB`.
    pub fn to_string(&self) -> (text: String)
        ensures
            text@ == humanized(self@),
    {
        humanize(self.0)
    }
}

/// A file: its size and its path.
#[derive(Debug, Eq, PartialEq, Ord, PartialOrd)]
pub struct File {
    size: Size,
    path: String,
}

impl View for File {
    type V = Rank;

    closed spec fn view(&self) -> Rank {
        (self.size@, self.path@)
    }
}

impl Clone for File {
    fn clone(&self) -> (file: File)
        ensures
            file == *self,
    {
        File { size: self.size, path: self.path.clone() }
    }
}

impl Ranked for File {
    open spec fn rank(&self) -> Rank {
        self@
    }

    fn size_in_bytes(&self) -> (size: u64) {
        self.size.bytes()
    }

    fn path_str(&self) -> (path: &str) {
        self.path.as_str()
    }
}

/// The line that a file of rank `rank` is written as: the size, a space,
/// the path.
pub open spec fn file_line(rank: Rank) -> Seq<char> {
    humanized(rank.0) + seq![' '] + rank.1
}

impl File {
    /// The file at `path`, `size` bytes long.
    pub fn new(path: &str, size: u64) -> (file: File)
        ensures
            file@ == (size, path@),
    {
        File { size: Size(size), path: path.to_owned() }
    }

    /// The size.
    pub fn size(&self) -> (size: Size)
        ensures
            size@ == self@.0,
    {
        self.size
    }

    /// The path.
    pub fn path(&self) -> (path: &str)
        ensures
            path@ == self@.1,
    {
        self.path.as_str()
    }

    /// The file taken apart into its size and its path.
    pub fn into_parts(self) -> (parts: (Size, String))
        ensures
            parts@ == self@,
    {
        (self.size, self.path)
    }

    /// Writes the file as one line, such as `34 KB /path/to/file.txt`.
    pub fn to_string(&self) -> (line: String)
        ensures
            line@ == file_line(self@),
    {
        let mut line = self.size.to_string();
        proof {
            reveal_strlit(" ");
        }
        line.append(" ");
        line.append(self.path.as_str());
        assert(line@ =~= file_line(self@));
        line
    }
}

/// What a walk asks its driver to do next.
#[derive(Clone, Copy, Debug, PartialEq, Eq)]
pub enum Request {
    /// Read the next entry of the innermost open directory.
    Read,
    /// Find out whether the entry that was read last is a directory.
    Probe,
    /// Open the entry that was read last as a directory. It becomes the
    /// innermost open directory.
    Open,
    /// Find out the size of the entry that was read last.
    Measure,
    /// Close every directory: the walk is over.
    Stop,
}

/// What came of a [`Request`].
#[derive(Debug, PartialEq, Eq)]
pub enum Answer {
    /// An entry was read; this is its path.
    Listed(String),
    /// No entry was left to read. The driver has closed the innermost open
    /// directory.
    Drained,
    /// The entry is a directory.
    Directory,
    /// The entry is not a directory.
    Other,
    /// The directory was opened.
    Opened,
    /// The entry is this many bytes long.
    Measured(u64),
    /// What was asked for could not be done.
    Failed,
}

/// An [`Answer`], as the mathematics see it: with the path as a sequence of
/// characters.
pub enum Reply {
    /// An entry was read; this is its path.
    Listed(Seq<char>),
    /// No entry was left to read.
    Drained,
    /// The entry is a directory.
    Directory,
    /// The entry is not a directory.
    Other,
    /// The directory was opened.
    Opened,
    /// The entry is this many bytes long.
    Measured(u64),
    /// What was asked for could not be done.
    Failed,
}

impl View for Answer {
    type V = Reply;

    open spec fn view(&self) -> Reply {
        match *self {
            Answer::Listed(path) => Reply::Listed(path@),
            Answer::Drained => Reply::Drained,
            Answer::Directory => Reply::Directory,
            Answer::Other => Reply::Other,
            Answer::Opened => Reply::Opened,
            Answer::Measured(size) => Reply::Measured(size),
            Answer::Failed => Reply::Failed,
        }
    }
}

/// What a walk waits for.
#[derive(Clone, Copy, Debug, PartialEq, Eq)]
pub enum Stage {
    /// For the next entry of the innermost open directory.
    Reading,
    /// For the kind of the entry at hand.
    Probing,
    /// For the entry at hand to be opened as a directory.
    Opening,
    /// For the size of the entry at hand.
    Measuring,
    /// For nothing: the walk is over.
    Done,
}

/// A walk, as the mathematics see it.
pub struct Walk {
    /// Whether hidden entries are passed over.
    pub ignore_hidden: bool,
    /// The number of directories that are open.
    pub depth: nat,
    /// What the walk waits for.
    pub stage: Stage,
    /// The path of the entry at hand; empty where there is none.
    pub path: Seq<char>,
}

impl Walk {
    /// The walk at its start: in the root directory, which is open.
    pub open spec fn start(ignore_hidden: bool) -> Walk {
        Walk { ignore_hidden, depth: 1, stage: Stage::Reading, path: Seq::empty() }
    }

    /// What the walk asks for next.
    pub open spec fn request(self) -> Request {
        match self.stage {
            Stage::Reading => Request::Read,
            Stage::Probing => Request::Probe,
            Stage::Opening => Request::Open,
            Stage::Measuring => Request::Measure,
            Stage::Done => Request::Stop,
        }
    }

    /// The walk, over.
    pub open spec fn stopped(self) -> Walk {
        Walk { ignore_hidden: self.ignore_hidden, depth: 0, stage: Stage::Done, path: Seq::empty() }
    }

    /// The walk, reading in the innermost of `depth` open directories.
    pub open spec fn reading(self, depth: nat) -> Walk {
        Walk { ignore_hidden: self.ignore_hidden, depth, stage: Stage::Reading, path: Seq::empty() }
    }

    /// The walk, waiting for `stage` with the entry at `path` at hand.
    pub open spec fn holding(self, stage: Stage, path: Seq<char>) -> Walk {
        Walk { ignore_hidden: self.ignore_hidden, depth: self.depth, stage, path }
    }

    /// Whether the walk passes an entry at `path` over.
    pub open spec fn skips(self, path: Seq<char>) -> bool {
        self.ignore_hidden && hidden(path)
    }

    /// What the walk becomes when its driver answers `reply`, and the file
    /// that it hands out on that answer, if any.
    ///
    /// An answer that does not fit what the walk asked for is taken as a
    /// failure, and so is a directory opened when `usize::MAX` are open
    /// already. Every failure ends the walk.
    pub open spec fn step(self, reply: Reply) -> (Walk, Option<Rank>) {
        match (self.stage, reply) {
            (Stage::Reading, Reply::Listed(path)) => if self.skips(path) {
                (self, None)
            } else {
                (self.holding(Stage::Probing, path), None)
            },
            (Stage::Reading, Reply::Drained) => if self.depth > 1 {
                (self.reading((self.depth - 1) as nat), None)
            } else {
                (self.stopped(), None)
            },
            (Stage::Probing, Reply::Directory) => (self.holding(Stage::Opening, self.path), None),
            (Stage::Probing, Reply::Other) => (self.holding(Stage::Measuring, self.path), None),
            (Stage::Opening, Reply::Opened) => if self.depth < usize::MAX {
                (self.reading(self.depth + 1), None)
            } else {
                (self.stopped(), None)
            },
            (Stage::Measuring, Reply::Measured(size)) => (
                self.reading(self.depth),
                Some((size, self.path)),
            ),
            _ => (self.stopped(), None),
        }
    }

    /// What the walk becomes over a run of answers, and the files that it
    /// hands out on the way, in order.
    pub open spec fn run(self, replies: Seq<Reply>) -> (Walk, Seq<Rank>)
        decreases replies.len(),
    {
        if replies.len() == 0 {
            (self, Seq::empty())
        } else {
            let (next, found) = self.step(replies.first());
            let (last, rest) = next.run(replies.drop_first());
            (
                last,
                match found {
                    Some(rank) => seq![rank] + rest,
                    None => rest,
                },
            )
        }
    }

    /// What holds of every walk: it is over exactly when no directory is
    /// open, it has an entry at hand only while it deals with one, and with
    /// hidden entries ignored that entry is not hidden.
    pub open spec fn wf(self) -> bool {
        &&& self.stage == Stage::Done <==> self.depth == 0
        &&& self.depth <= usize::MAX
        &&& self.stage == Stage::Reading || self.stage == Stage::Done ==> self.path == Seq::<
            char,
        >::empty()
        &&& !self.skips(self.path)
    }
}

/// A walk through a directory tree. See the module for how it is driven.
pub struct FileIter {
    ignore_hidden: bool,
    depth: usize,
    stage: Stage,
    path: String,
}

impl View for FileIter {
    type V = Walk;

    closed spec fn view(&self) -> Walk {
        Walk {
            ignore_hidden: self.ignore_hidden,
            depth: self.depth as nat,
            stage: self.stage,
            path: self.path@,
        }
    }
}

/// A walk of the directory that the caller tried to open, with hidden
/// entries included. Where the directory could not be opened there is no
/// walk: the caller's error comes back.
pub fn walk_dir<E>(root: Result<(), E>) -> (walk: Result<FileIter, E>)
    ensures
        match root {
            Ok(_) => walk matches Ok(w) && w@ == Walk::start(false),
            Err(e) => walk == Err::<FileIter, E>(e),
        },
{
    match root {
        Ok(_) => Ok(FileIter::new(false)),
        Err(e) => Err(e),
    }
}

impl FileIter {
    #[verifier::type_invariant]
    spec fn inv(self) -> bool {
        self@.wf()
    }

    /// A walk at its start: the root directory is open and nothing was read.
    pub fn new(ignore_hidden: bool) -> (walk: FileIter)
        ensures
            walk@ == Walk::start(ignore_hidden),
    {
        proof {
            lemma_nothing_is_not_hidden();
        }
        FileIter { ignore_hidden, depth: 1, stage: Stage::Reading, path: String::new() }
    }

    /// What the driver is to do next.
    pub fn request(&self) -> (request: Request)
        ensures
            request == self@.request(),
            self@.wf(),
    {
        proof {
            use_type_invariant(self);
        }
        match self.stage {
            Stage::Reading => Request::Read,
            Stage::Probing => Request::Probe,
            Stage::Opening => Request::Open,
            Stage::Measuring => Request::Measure,
            Stage::Done => Request::Stop,
        }
    }

    /// Calls the walk off: it is over, whatever it was waiting for. The
    /// files handed out so far stand.
    pub fn cancel(&mut self)
        ensures
            final(self)@ == old(self)@.stopped(),
            final(self)@.wf(),
    {
        proof {
            lemma_nothing_is_not_hidden();
        }
        *self = FileIter {
            ignore_hidden: self.ignore_hidden,
            depth: 0,
            stage: Stage::Done,
            path: String::new(),
        };
    }

    /// Takes the answer to what the walk asked for last. Hands out a file
    /// when the answer completes one.
    pub fn advance(&mut self, answer: Answer) -> (found: Option<File>)
        ensures
            final(self)@ == old(self)@.step(answer@).0,
            final(self)@.wf(),
            match found {
                Some(file) => old(self)@.step(answer@).1 == Some(file@),
                None => old(self)@.step(answer@).1 is None,
            },
    {
        proof {
            use_type_invariant(&*self);
            lemma_nothing_is_not_hidden();
        }
        let ignore_hidden = self.ignore_hidden;
        let depth: usize = self.depth;
        match (self.stage, answer) {
            (Stage::Reading, Answer::Listed(path)) => {
                if !(ignore_hidden && is_hidden_path(path.as_str())) {
                    *self = FileIter { ignore_hidden, depth, stage: Stage::Probing, path };
                }
                None
            },
            (Stage::Reading, Answer::Drained) => {
                if depth > 1 {
                    self.depth = depth - 1;
                } else {
                    self.cancel();
                }
                None
            },
            (Stage::Probing, Answer::Directory) => {
                self.stage = Stage::Opening;
                None
            },
            (Stage::Probing, Answer::Other) => {
                self.stage = Stage::Measuring;
                None
            },
            (Stage::Opening, Answer::Opened) => {
                if depth < usize::MAX {
                    *self = FileIter {
                        ignore_hidden,
                        depth: depth + 1,
                        stage: Stage::Reading,
                        path: String::new(),
                    };
                } else {
                    self.cancel();
                }
                None
            },
            (Stage::Measuring, Answer::Measured(size)) => {
                let mut path = String::new();
                core::mem::swap(&mut self.path, &mut path);
                self.stage = Stage::Reading;
                Some(File { size: Size(size), path })
            },
            _ => {
                self.cancel();
                None
            },
        }
    }
}

/// A step keeps what holds of every walk.
pub proof fn lemma_step_keeps_wf(walk: Walk, reply: Reply)
    requires
        walk.wf(),
    ensures
        walk.step(reply).0.wf(),
        walk.step(reply).0.ignore_hidden == walk.ignore_hidden,
{
    lemma_nothing_is_not_hidden();
}

/// With hidden entries ignored, a walk hands out no hidden file: not on one
/// answer, and so not on any run of answers.
pub proof fn lemma_hidden_files_stay_out(walk: Walk, replies: Seq<Reply>)
    requires
        walk.wf(),
        walk.ignore_hidden,
    ensures
        walk.run(replies).0.wf(),
        forall|i: int|
            0 <= i < walk.run(replies).1.len() ==> !hidden((#[trigger] walk.run(replies).1[i]).1),
    decreases replies.len(),
{
    if replies.len() > 0 {
        let (next, found) = walk.step(replies.first());
        lemma_step_keeps_wf(walk, replies.first());
        lemma_hidden_files_stay_out(next, replies.drop_first());
    }
}

/// A walk that is over stays over and hands out nothing more, whatever it
/// is told.
pub proof fn lemma_a_walk_that_is_over_stays_over(walk: Walk, replies: Seq<Reply>)
    requires
        walk.stage == Stage::Done,
    ensures
        walk.run(replies).1 == Seq::<Rank>::empty(),
        walk.run(replies).0.stage == Stage::Done,
    decreases replies.len(),
{
    if replies.len() > 0 {
        lemma_a_walk_that_is_over_stays_over(walk.stopped(), replies.drop_first());
    }
}

/// A run of answers can be taken in two parts: the second part goes on
/// where the first ended, and the files of both follow each other.
pub proof fn lemma_run_in_parts(walk: Walk, first: Seq<Reply>, second: Seq<Reply>)
    ensures
        walk.run(first + second) == (
            walk.run(first).0.run(second).0,
            walk.run(first).1 + walk.run(first).0.run(second).1,
        ),
    decreases first.len(),
{
    if first.len() == 0 {
        assert(first + second =~= second);
        assert(walk.run(first).1 + walk.run(second).1 =~= walk.run(second).1);
    } else {
        let next = walk.step(first.first()).0;
        assert((first + second).drop_first() =~= first.drop_first() + second);
        assert((first + second).first() == first.first());
        lemma_run_in_parts(next, first.drop_first(), second);
        let (a, b) = (next.run(first.drop_first()).1, next.run(first.drop_first()).0.run(second).1);
        match walk.step(first.first()).1 {
            Some(rank) => {
                assert(seq![rank] + (a + b) =~= (seq![rank] + a) + b);
            },
            None => {},
        }
    }
}

/// What cannot be read ends the walk without a word: the files handed out
/// before stand, none follows, and the walk is over.
pub proof fn lemma_failure_ends_the_walk(walk: Walk, before: Seq<Reply>, after: Seq<Reply>)
    ensures
        walk.run(before + seq![Reply::Failed] + after).1 == walk.run(before).1,
        walk.run(before + seq![Reply::Failed] + after).0.stage == Stage::Done,
{
    let failed = seq![Reply::Failed];
    let at = walk.run(before).0;
    assert(before + failed + after =~= before + (failed + after));
    lemma_run_in_parts(walk, before, failed + after);
    lemma_run_in_parts(at, failed, after);
    assert(failed.drop_first() =~= Seq::<Reply>::empty());
    assert(at.run(failed) == (at.stopped(), Seq::<Rank>::empty())) by {
        reveal_with_fuel(Walk::run, 2);
    }
    lemma_a_walk_that_is_over_stays_over(at.stopped(), after);
    assert(walk.run(before).1 + Seq::<Rank>::empty() =~= walk.run(before).1);
    assert(Seq::<Rank>::empty() + Seq::<Rank>::empty() =~= Seq::<Rank>::empty());
}

/// The empty path names nothing, so nothing hidden.
pub proof fn lemma_nothing_is_not_hidden()
    ensures
        !hidden(Seq::<char>::empty()),
{
    assert(vstd::utf8::encode_utf8(Seq::<char>::empty()) =~= Seq::<u8>::empty());
}

} // verus!
