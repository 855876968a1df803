//! Deleting duplicates: the choices offered for each copy, the state of an
//! interactive deletion, and what a dry run would remove.
use vstd::prelude::*;

use crate::cli::KeepStrategy;
use crate::grouper::duplicate_group::{deref_entries, keeper_position};
use crate::grouper::DuplicateGroup;
use crate::scanner::file_entry::{lemma_sizes_prefix, sizes_total};
use crate::scanner::FileEntry;
use crate::total_duplicates;

verus! {

/// Counts of a deletion run.
#[derive(Debug)]
pub struct DeleteStats {
    pub files_deleted: u64,
    pub bytes_freed: u64,
    pub files_skipped: u64,
    pub files_failed: u64,
}

impl Default for DeleteStats {
    fn default() -> (r: Self)
        ensures
            r.files_deleted == 0,
            r.bytes_freed == 0,
            r.files_skipped == 0,
            r.files_failed == 0,
    {
        DeleteStats { files_deleted: 0, bytes_freed: 0, files_skipped: 0, files_failed: 0 }
    }
}

/// The answer given for one copy.
#[derive(Debug, Clone, Copy, PartialEq, Eq, Structural)]
pub enum DeleteChoice {
    Yes,
    No,
    All,
    Quit,
}

/// The choice picked from the prompt's list, whose entries are, in order,
/// "No", "Yes", "All remaining" and "Quit"; any later position quits.
pub fn choice_from_selection(selection: usize) -> (r: DeleteChoice)
    ensures
        selection == 0 ==> r == DeleteChoice::No,
        selection == 1 ==> r == DeleteChoice::Yes,
        selection == 2 ==> r == DeleteChoice::All,
        selection >= 3 ==> r == DeleteChoice::Quit,
{
    if selection == 0 {
        DeleteChoice::No
    } else if selection == 1 {
        DeleteChoice::Yes
    } else if selection == 2 {
        DeleteChoice::All
    } else {
        DeleteChoice::Quit
    }
}

/// What is done with the copy a choice was made for.
#[derive(Debug, Clone, Copy, PartialEq, Eq, Structural)]
pub enum FileAction {
    /// Remove the copy.
    Delete,
    /// Leave the copy in place.
    Skip,
    /// End the deletion run.
    Stop,
}

/// The state of a deletion run: its counts, and whether copies are still
/// asked about one by one.
#[derive(Debug)]
pub struct DeleteSession {
    pub stats: DeleteStats,
    /// Every remaining copy is removed without asking.
    pub confirm_all: bool,
}

impl DeleteSession {
    /// A run with zero counts that asks about each copy unless
    /// `auto_confirm` is set.
    pub fn new(auto_confirm: bool) -> (r: Self)
        ensures
            r.confirm_all == auto_confirm,
            r.stats.files_deleted == 0,
            r.stats.bytes_freed == 0,
            r.stats.files_skipped == 0,
            r.stats.files_failed == 0,
    {
        DeleteSession { stats: DeleteStats::default(), confirm_all: auto_confirm }
    }

    /// Whether the next copy has to be asked about.
    pub fn needs_prompt(&self) -> (r: bool)
        ensures
            r == !self.confirm_all,
    {
        !self.confirm_all
    }

    /// Takes the answer given for a copy: "Yes" deletes it, "No" skips it
    /// (and counts it as skipped), "All" deletes it and every later copy
    /// without asking, "Quit" ends the run.
    pub fn on_choice(&mut self, choice: DeleteChoice) -> (r: FileAction)
        requires
            choice == DeleteChoice::No ==> old(self).stats.files_skipped < u64::MAX,
        ensures
            choice == DeleteChoice::Yes ==> r == FileAction::Delete,
            choice == DeleteChoice::All ==> r == FileAction::Delete,
            choice == DeleteChoice::No ==> r == FileAction::Skip,
            choice == DeleteChoice::Quit ==> r == FileAction::Stop,
            final(self).confirm_all == (old(self).confirm_all || choice == DeleteChoice::All),
            final(self).stats.files_skipped == old(self).stats.files_skipped + (if choice
                == DeleteChoice::No {
                1int
            } else {
                0int
            }),
            final(self).stats.files_deleted == old(self).stats.files_deleted,
            final(self).stats.bytes_freed == old(self).stats.bytes_freed,
            final(self).stats.files_failed == old(self).stats.files_failed,
    {
        match choice {
            DeleteChoice::Yes => FileAction::Delete,
            DeleteChoice::No => {
                self.stats.files_skipped = self.stats.files_skipped + 1;
                FileAction::Skip
            },
            DeleteChoice::All => {
                self.confirm_all = true;
                FileAction::Delete
            },
            DeleteChoice::Quit => FileAction::Stop,
        }
    }

    /// Counts a copy of `size` bytes that was removed.
    pub fn on_deleted(&mut self, size: u64)
        requires
            old(self).stats.files_deleted < u64::MAX,
            old(self).stats.bytes_freed + size <= u64::MAX,
        ensures
            final(self).stats.files_deleted == old(self).stats.files_deleted + 1,
            final(self).stats.bytes_freed == old(self).stats.bytes_freed + size,
            final(self).stats.files_skipped == old(self).stats.files_skipped,
            final(self).stats.files_failed == old(self).stats.files_failed,
            final(self).confirm_all == old(self).confirm_all,
    {
        self.stats.files_deleted = self.stats.files_deleted + 1;
        self.stats.bytes_freed = self.stats.bytes_freed + size;
    }

    /// Counts a copy whose removal failed.
    pub fn on_failed(&mut self)
        requires
            old(self).stats.files_failed < u64::MAX,
        ensures
            final(self).stats.files_failed == old(self).stats.files_failed + 1,
            final(self).stats.files_deleted == old(self).stats.files_deleted,
            final(self).stats.bytes_freed == old(self).stats.bytes_freed,
            final(self).stats.files_skipped == old(self).stats.files_skipped,
            final(self).confirm_all == old(self).confirm_all,
    {
        self.stats.files_failed = self.stats.files_failed + 1;
    }
}

/// The files of a group that a run with `strategy` would remove: all but the
/// kept one.
pub open spec fn removable(g: DuplicateGroup, strategy: KeepStrategy) -> Seq<FileEntry> {
    if g.files@.len() == 0 {
        Seq::empty()
    } else {
        g.files@.remove(keeper_position(g.files@, strategy))
    }
}

/// Number of files that a run with `strategy` would remove from `gs`.
pub open spec fn planned_files(gs: Seq<DuplicateGroup>, strategy: KeepStrategy) -> nat
    decreases gs.len(),
{
    if gs.len() == 0 {
        0
    } else {
        planned_files(gs.drop_last(), strategy) + removable(gs.last(), strategy).len()
    }
}

/// Bytes that a run with `strategy` would free in `gs`.
pub open spec fn planned_bytes(gs: Seq<DuplicateGroup>, strategy: KeepStrategy) -> nat
    decreases gs.len(),
{
    if gs.len() == 0 {
        0
    } else {
        planned_bytes(gs.drop_last(), strategy) + sizes_total(removable(gs.last(), strategy))
    }
}

proof fn lemma_planned_prefix(gs: Seq<DuplicateGroup>, strategy: KeepStrategy, i: int)
    requires
        0 <= i <= gs.len(),
    ensures
        planned_bytes(gs.subrange(0, i), strategy) <= planned_bytes(gs, strategy),
        planned_files(gs.subrange(0, i), strategy) <= planned_files(gs, strategy),
    decreases gs.len() - i,
{
    if i < gs.len() {
        lemma_planned_prefix(gs, strategy, i + 1);
        assert(gs.subrange(0, i + 1).drop_last() =~= gs.subrange(0, i));
    } else {
        assert(gs.subrange(0, i) =~= gs);
    }
}

/// The sum of the sizes of the given files, when it fits in a `u64`.
fn sum_sizes(fs: &Vec<&FileEntry>) -> (r: Option<u64>)
    ensures
        r is Some <==> sizes_total(deref_entries(fs@)) <= u64::MAX,
        r matches Some(t) ==> t == sizes_total(deref_entries(fs@)),
{
    let ghost d = deref_entries(fs@);
    let mut total: u64 = 0;
    let mut i: usize = 0;
    while i < fs.len()
        invariant
            d == deref_entries(fs@),
            i <= fs@.len(),
            total == sizes_total(d.subrange(0, i as int)),
        decreases fs@.len() - i,
    {
        proof {
            assert(d.subrange(0, i + 1).drop_last() =~= d.subrange(0, i as int));
            lemma_sizes_prefix(d, i + 1);
        }
        match total.checked_add(fs[i].size) {
            Some(t) => {
                total = t;
            },
            None => {
                return None;
            },
        }
        i += 1;
    }
    assert(d.subrange(0, i as int) =~= d);
    Some(total)
}

/// What a dry run with `strategy` reports: the number of files that would be
/// removed and the bytes that would be freed, when both fit in a `u64`.
pub fn dry_run_totals(groups: &Vec<DuplicateGroup>, strategy: KeepStrategy) -> (r: Option<
    (u64, u64),
>)
    ensures
        r is Some <==> (planned_files(groups@, strategy) <= u64::MAX && planned_bytes(
            groups@,
            strategy,
        ) <= u64::MAX),
        r matches Some(t) ==> t.0 == planned_files(groups@, strategy) && t.1 == planned_bytes(
            groups@,
            strategy,
        ),
{
    let mut files: u64 = 0;
    let mut bytes: u64 = 0;
    let mut i: usize = 0;
    while i < groups.len()
        invariant
            i <= groups@.len(),
            files == planned_files(groups@.subrange(0, i as int), strategy),
            bytes == planned_bytes(groups@.subrange(0, i as int), strategy),
        decreases groups@.len() - i,
    {
        proof {
            assert(groups@.subrange(0, i + 1).drop_last() =~= groups@.subrange(0, i as int));
            lemma_planned_prefix(groups@, strategy, i + 1);
        }
        let dups = groups[i].get_duplicates(strategy);
        let n = dups.len();
        proof {
            assert(deref_entries(dups@).len() == dups@.len());
            assert(deref_entries(dups@) == removable(groups@[i as int], strategy));
        }
        let size = match sum_sizes(&dups) {
            Some(s) => s,
            None => {
                return None;
            },
        };
        if n as u64 > u64::MAX - files {
            return None;
        }
        files = files + n as u64;
        match bytes.checked_add(size) {
            Some(b) => {
                bytes = b;
            },
            None => {
                return None;
            },
        }
        i += 1;
    }
    assert(groups@.subrange(0, i as int) =~= groups@);
    Some((files, bytes))
}

/// A dry run would remove exactly the copies that the scan counts as
/// duplicates, whatever the strategy.
pub proof fn law_dry_run_counts_duplicates(gs: Seq<DuplicateGroup>, strategy: KeepStrategy)
    ensures
        planned_files(gs, strategy) == total_duplicates(gs),
    decreases gs.len(),
{
    if gs.len() > 0 {
        law_dry_run_counts_duplicates(gs.drop_last(), strategy);
        let f = gs.last().files@;
        if f.len() > 0 {
            crate::grouper::duplicate_group::lemma_keeper_exists(f, strategy);
        }
    }
}

} // verus!
