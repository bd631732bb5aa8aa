//! The state of one scan: the files seen so far, and when to report them.
//!
//! A scan takes the files of a walk one by one. With each file it is told the
//! time, and where the last snapshot is [`CADENCE_MILLIS`] old or older it
//! hands out a new one. When the walk is over it hands out a last snapshot,
//! whatever the time. Snapshots between the first file and the last may get
//! lost on their way; the last one is what a scan is for.
use crate::rank::{ranks, Rank};
use crate::select::{is_top, WorkingSet};
use crate::FileSize;
use vstd::prelude::*;

verus! {

/// The least time between two snapshots of a scan that goes on, in
/// milliseconds.
pub const CADENCE_MILLIS: u64 = 16;

/// A scan, as the mathematics see it.
pub struct Scan {
    /// The files taken in so far.
    pub seen: Set<Rank>,
    /// The number of files that a snapshot holds at most.
    pub limit: nat,
    /// The size below which a file is not taken in.
    pub min_size: u64,
    /// When the last snapshot was handed out; when the scan began, before
    /// the first. In milliseconds, on the clock of whoever drives the scan.
    pub emitted_at: u64,
}

impl Scan {
    /// The scan at its start.
    pub open spec fn start(limit: nat, min_size: u64, now: u64) -> Scan {
        Scan { seen: Set::empty(), limit, min_size, emitted_at: now }
    }

    /// Whether the scan takes a file of this rank in: files below the least
    /// size are left out, as if they had not been there.
    pub open spec fn admits(self, rank: Rank) -> bool {
        rank.0 >= self.min_size
    }

    /// Whether a snapshot is due at `now`: the last one is at least
    /// [`CADENCE_MILLIS`] old. On a clock that ran backwards none is due.
    pub open spec fn due(self, now: u64) -> bool {
        now >= self.emitted_at && now - self.emitted_at >= CADENCE_MILLIS
    }

    /// The scan after a run of files, each with the time at which the scan
    /// came across it.
    pub open spec fn observe_all(self, files: Seq<(Rank, u64)>) -> Scan
        decreases files.len(),
    {
        if files.len() == 0 {
            self
        } else {
            self.observe_all(files.drop_last()).observe(files.last().0, files.last().1)
        }
    }

    /// The scan after it came across a file of rank `rank` at `now`.
    pub open spec fn observe(self, rank: Rank, now: u64) -> Scan {
        Scan {
            seen: if self.admits(rank) {
                self.seen.insert(rank)
            } else {
                self.seen
            },
            limit: self.limit,
            min_size: self.min_size,
            emitted_at: if self.due(now) {
                now
            } else {
                self.emitted_at
            },
        }
    }
}

/// The state of one scan.
pub struct ScanState {
    seen: WorkingSet,
    limit: usize,
    min_size: u64,
    emitted_at: u64,
}

impl View for ScanState {
    type V = Scan;

    closed spec fn view(&self) -> Scan {
        Scan {
            seen: self.seen@.to_set(),
            limit: self.limit as nat,
            min_size: self.min_size,
            emitted_at: self.emitted_at,
        }
    }
}

impl ScanState {
    /// A scan that begins at `now` and takes every file in. Its snapshots
    /// hold `limit` files at most.
    pub fn new(limit: usize, now: u64) -> (scan: ScanState)
        ensures
            scan@ == Scan::start(limit as nat, 0, now),
    {
        ScanState::with_min_size(limit, 0, now)
    }

    /// A scan that begins at `now` and leaves out every file smaller than
    /// `min_size` bytes. Its snapshots hold `limit` files at most.
    pub fn with_min_size(limit: usize, min_size: u64, now: u64) -> (scan: ScanState)
        ensures
            scan@ == Scan::start(limit as nat, min_size, now),
    {
        let scan = ScanState { seen: WorkingSet::new(), limit, min_size, emitted_at: now };
        assert(scan@.seen =~= Set::<Rank>::empty());
        scan
    }

    /// Takes the next file of the walk, come across at `now`. Hands out a
    /// snapshot where one is due: the largest files seen, this one counted.
    pub fn observe(&mut self, size: FileSize, path: String, now: u64) -> (snapshot: Option<
        Vec<(FileSize, String)>,
    >)
        ensures
            final(self)@ == old(self)@.observe((size@, path@), now),
            snapshot is Some <==> old(self)@.due(now),
            snapshot matches Some(files) ==> is_top(
                ranks(files@),
                final(self)@.seen,
                old(self)@.limit,
            ),
    {
        if size.bytes() >= self.min_size {
            self.seen.insert(size, path);
        }
        if now >= self.emitted_at && now - self.emitted_at >= CADENCE_MILLIS {
            self.emitted_at = now;
            Some(self.seen.snapshot(self.limit))
        } else {
            None
        }
    }

    /// Ends the scan and hands out its last snapshot: the largest files of
    /// all that the walk came across, the largest first. It is empty where
    /// there were none.
    pub fn finish(self) -> (snapshot: Vec<(FileSize, String)>)
        ensures
            is_top(ranks(snapshot@), self@.seen, self@.limit),
    {
        self.seen.snapshot(self.limit)
    }
}

/// Snapshots keep their distance. A scan that hands one out at `now` had
/// its last one [`CADENCE_MILLIS`] before or earlier, and has none due again
/// until as long after `now`; a scan that hands none out stays as it was in
/// this. The time of the last snapshot never goes back.
pub proof fn lemma_snapshots_keep_the_cadence(scan: Scan, rank: Rank, now: u64, later: u64)
    ensures
        scan.observe(rank, now).emitted_at >= scan.emitted_at,
        scan.due(now) ==> scan.observe(rank, now).emitted_at == now && scan.emitted_at
            + CADENCE_MILLIS <= now,
        !scan.due(now) ==> scan.observe(rank, now).emitted_at == scan.emitted_at,
        scan.observe(rank, now).due(later) ==> later >= scan.observe(rank, now).emitted_at
            + CADENCE_MILLIS,
{
}

/// What a scan has seen does not depend on the clock, and nothing that it
/// has seen gets lost: a file is among those seen after a step exactly if
/// it was before, or is the file of the step and large enough.
pub proof fn lemma_files_seen_stay_seen(scan: Scan, rank: Rank, now: u64, other: Rank)
    ensures
        scan.observe(rank, now).seen.contains(other) <==> scan.seen.contains(other) || (other
            == rank && rank.0 >= scan.min_size),
        scan.observe(rank, now).limit == scan.limit,
        scan.observe(rank, now).min_size == scan.min_size,
{
}

/// A scan has seen, after a run of files, what it had seen before and
/// every file of the run that is large enough, whatever the times were. So
/// the snapshot that it ends with is the top of all these files.
pub proof fn lemma_scan_sees_the_files_of_the_walk(
    scan: Scan,
    files: Seq<(Rank, u64)>,
    rank: Rank,
)
    ensures
        scan.observe_all(files).limit == scan.limit,
        scan.observe_all(files).min_size == scan.min_size,
        scan.observe_all(files).emitted_at >= scan.emitted_at,
        scan.observe_all(files).seen.contains(rank) <==> scan.seen.contains(rank) || (rank.0
            >= scan.min_size && exists|i: int| 0 <= i < files.len() && (#[trigger] files[i]).0
            == rank),
    decreases files.len(),
{
    if files.len() > 0 {
        let before = files.drop_last();
        lemma_scan_sees_the_files_of_the_walk(scan, before, rank);
        let last = files.last();
        lemma_files_seen_stay_seen(scan.observe_all(before), last.0, last.1, rank);
        if exists|i: int| 0 <= i < before.len() && (#[trigger] before[i]).0 == rank {
            let i = choose|i: int| 0 <= i < before.len() && (#[trigger] before[i]).0 == rank;
            assert(files[i].0 == rank);
        }
        if exists|i: int| 0 <= i < files.len() && (#[trigger] files[i]).0 == rank {
            let i = choose|i: int| 0 <= i < files.len() && (#[trigger] files[i]).0 == rank;
            if i < before.len() {
                assert(before[i].0 == rank);
            }
        }
    }
}

} // verus!
