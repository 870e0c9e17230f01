//! Removing the selected files.
//!
//! The files are removed one after the other, in the order of the selection.
//! Each removal is announced, tried once and never tried again. The first
//! removal that fails ends the run: what was removed stays removed, and what
//! follows is left untouched. The removal itself is the caller's: a
//! [`DeletionRun`] says what to do next and is told how it went.

use vstd::prelude::*;
use vstd::string::StringExecFns;

verus! {

/// How the removal of one file went.
#[derive(Clone, Copy, Debug, PartialEq, Eq, Structural)]
pub enum Removal {
    /// The file is gone.
    Removed,
    /// The file could not be removed.
    Failed,
}

/// What the caller has to do next.
#[derive(Debug, PartialEq, Eq)]
pub enum Step {
    /// Show `notice`, then remove the file at `path` and report how it went.
    Remove { path: String, notice: String },
    /// Every selected file was removed: the run ended well.
    Finished,
    /// A removal failed: the run ended, and the failure is to be reported.
    Aborted,
}

/// What precedes the path in the notice of a removal.
pub open spec fn notice_prefix() -> Seq<char> {
    "deleting file: "@
}

/// The notice shown before the file at `path` is removed.
pub open spec fn notice_text(path: Seq<char>) -> Seq<char> {
    notice_prefix() + path
}

/// The notice shown before the file at `path` is removed.
pub fn deletion_notice(path: &str) -> (notice: String)
    ensures
        notice@ == notice_text(path@),
{
    let mut notice = String::from_str("deleting file: ");
    notice.append(path);
    notice
}

/// The progress of one deletion pass.
#[derive(Debug)]
pub struct DeletionRun {
    paths: Vec<String>,
    attempted: usize,
    failed: bool,
}

/// A [`DeletionRun`] as contracts see it.
pub struct DeletionRunView {
    /// The selected paths, in the order in which they are removed.
    pub paths: Seq<Seq<char>>,
    /// How many removals were tried so far.
    pub attempted: nat,
    /// Whether the last removal tried has failed.
    pub failed: bool,
}

impl DeletionRunView {
    /// No more removals were tried than there are paths, and a failure is
    /// the failure of a removal that was tried.
    pub open spec fn well_formed(self) -> bool {
        &&& self.attempted <= self.paths.len()
        &&& self.failed ==> self.attempted >= 1
    }

    /// Whether a removal is due: none has failed and a path is left.
    pub open spec fn pending(self) -> bool {
        !self.failed && self.attempted < self.paths.len()
    }

    /// The paths whose files are gone.
    pub open spec fn removed(self) -> Seq<Seq<char>> {
        if self.failed {
            self.paths.take(self.attempted - 1)
        } else {
            self.paths.take(self.attempted as int)
        }
    }

    /// The paths whose files no removal has touched.
    pub open spec fn untouched(self) -> Seq<Seq<char>> {
        self.paths.skip(self.attempted as int)
    }

    /// The state after the removal that was due went as `outcome` says.
    pub open spec fn after(self, outcome: Removal) -> DeletionRunView {
        if self.pending() {
            DeletionRunView {
                paths: self.paths,
                attempted: self.attempted + 1,
                failed: outcome == Removal::Failed,
            }
        } else {
            self
        }
    }
}

impl View for DeletionRun {
    type V = DeletionRunView;

    closed spec fn view(&self) -> DeletionRunView {
        DeletionRunView {
            paths: self.paths.deep_view(),
            attempted: self.attempted as nat,
            failed: self.failed,
        }
    }
}

impl DeletionRun {
    #[verifier::type_invariant]
    spec fn progress_valid(self) -> bool {
        &&& self.attempted <= self.paths@.len()
        &&& self.failed ==> self.attempted >= 1
    }

    /// A run that is to remove the files at `selection`, first to last.
    pub fn start(selection: Vec<String>) -> (run: DeletionRun)
        ensures
            run@ == (DeletionRunView {
                paths: selection.deep_view(),
                attempted: 0,
                failed: false,
            }),
            run@.well_formed(),
    {
        DeletionRun { paths: selection, attempted: 0, failed: false }
    }

    /// What is to be done next: after a failure nothing more is removed;
    /// otherwise the next path is due with its notice, or the run is over.
    pub fn next_step(&self) -> (step: Step)
        ensures
            self@.well_formed(),
            self@.failed ==> step == Step::Aborted,
            !self@.failed && self@.attempted == self@.paths.len() ==> step == Step::Finished,
            self@.pending() ==> (step matches Step::Remove { path, notice } && path@
                == self@.paths[self@.attempted as int] && notice@ == notice_text(path@)),
    {
        proof {
            use_type_invariant(self);
        }
        if self.failed {
            Step::Aborted
        } else if self.attempted < self.paths.len() {
            let path = self.paths[self.attempted].clone();
            let notice = deletion_notice(path.as_str());
            Step::Remove { path, notice }
        } else {
            Step::Finished
        }
    }

    /// Takes note of how the removal that was due went. A success makes the
    /// next path due; a failure ends the run. Where no removal was due,
    /// nothing changes.
    pub fn record(&mut self, outcome: Removal)
        ensures
            final(self)@ == old(self)@.after(outcome),
    {
        proof {
            use_type_invariant(&*self);
        }
        if !self.failed && self.attempted < self.paths.len() {
            self.attempted = self.attempted + 1;
            self.failed = match outcome {
                Removal::Removed => false,
                Removal::Failed => true,
            };
        }
    }
}

/// A failure is final: whatever is reported afterwards, the run stays as it
/// is and no removal is due.
pub proof fn lemma_failure_is_final(run: DeletionRunView, outcome: Removal)
    requires
        run.failed,
    ensures
        !run.pending(),
        run.after(outcome) == run,
{
}

/// Each path is tried once and in order: a removal that was due takes the
/// first untouched path, which joins the removed paths if the removal
/// succeeded, and leaves the other untouched paths as they were.
pub proof fn lemma_paths_tried_once_in_order(run: DeletionRunView, outcome: Removal)
    requires
        run.well_formed(),
        run.pending(),
    ensures
        run.after(outcome).well_formed(),
        run.untouched().len() > 0,
        run.after(outcome).untouched() == run.untouched().drop_first(),
        outcome == Removal::Removed ==> run.after(outcome).removed() == run.removed().push(
            run.untouched()[0],
        ),
        outcome == Removal::Failed ==> run.after(outcome).removed() == run.removed(),
        run.after(outcome).paths == run.paths,
{
}

/// A run that has not failed and has no path left has removed every
/// selected file.
pub proof fn lemma_finished_removed_all(run: DeletionRunView)
    requires
        run.well_formed(),
        !run.failed,
        !run.pending(),
    ensures
        run.removed() == run.paths,
        run.untouched().len() == 0,
{
}

} // verus!
