//! Deleting every file of one shot together: a JPG and its RAW companions
//! share a base name, and selecting any one of them selects the whole group.
//!
//! The library decides; the caller performs. Confirmation, error reports and
//! the deletion of a single file go through the [`Ui`] and [`Deleter`]
//! traits, which the caller implements. Reading the file system is the
//! caller's part too: it hands [`run`] a [`matching::Scan`] of the selected
//! file and its directory.

pub mod matching;
pub mod message;
pub mod mode;
pub mod names;
pub mod ordering;

pub use mode::Mode;

use matching::{find_matching_files, matching_files, FileEntry, Scan};
use message::{confirmation_text, error_text, str_views, string_views};
use mode::confirmation_required;
use vstd::prelude::*;

verus! {

/// User interaction: confirming a deletion and reporting failures.
///
/// An implementation may keep a log of its dialogs (`confirmations`,
/// `error_reports`) and declare so through `keeps_log`; the library's
/// contracts then say exactly which dialogs a run opens. One that keeps the
/// defaults keeps no log, and nothing is claimed of it but the `answers`
/// relation, whose default holds of every answer.
pub trait Ui {
    /// Whether this implementation keeps the logs below.
    closed spec fn keeps_log() -> bool {
        false
    }

    /// Every confirmation asked so far, with the answer given.
    closed spec fn confirmations(&self) -> Seq<(Seq<char>, bool)> {
        Seq::empty()
    }

    /// Every error report shown so far.
    closed spec fn error_reports(&self) -> Seq<Seq<char>> {
        Seq::empty()
    }

    /// The user, asked `message`, answers `approved`.
    closed spec fn answers(&self, message: Seq<char>, approved: bool) -> bool {
        true
    }

    /// Returns `true` when the user approves the deletion.
    fn confirm(&mut self, message: &str) -> (approved: bool)
        ensures
            old(self).answers(message@, approved),
            Self::keeps_log() ==> final(self).confirmations() == old(self).confirmations().push(
                (message@, approved),
            ),
            Self::keeps_log() ==> final(self).error_reports() == old(self).error_reports(),
    ;

    /// Reports files that could not be deleted.
    fn report_errors(&mut self, message: &str)
        ensures
            Self::keeps_log() ==> final(self).error_reports() == old(self).error_reports().push(
                message@,
            ),
            Self::keeps_log() ==> final(self).confirmations() == old(self).confirmations(),
    ;
}

/// Deletes a single file according to the active [`Mode`].
///
/// An implementation may keep a log of the deletions it was asked for
/// (`deletions`) and declare so through `keeps_log`; the library's contracts
/// then say exactly which files a run deletes. One that keeps the defaults
/// keeps no log, and nothing is claimed of it.
pub trait Deleter {
    /// Whether this implementation keeps the log below.
    closed spec fn keeps_log() -> bool {
        false
    }

    /// Every deletion asked for so far: the path, the mode, and whether it
    /// succeeded.
    closed spec fn deletions(&self) -> Seq<(Seq<char>, Mode, bool)> {
        Seq::empty()
    }

    fn delete(&mut self, path: &str, mode: Mode) -> (result: Result<(), String>)
        ensures
            Self::keeps_log() ==> final(self).deletions() == old(self).deletions().push(
                (path@, mode, result is Ok),
            ),
    ;
}

/// The result of a deletion run: one variant per branch the user can hit.
#[derive(Debug, PartialEq, Eq)]
pub enum Outcome {
    /// All matched files were deleted; carries the count.
    Deleted(usize),
    /// No supported file shared the selected file's base name.
    NothingToDelete,
    /// Confirmation was required and the user declined.
    Cancelled,
    /// The supplied path did not point at an existing file.
    PathNotFound,
    /// Some files were deleted; others failed (named in `failed`).
    PartialFailure { deleted: usize, failed: Vec<String> },
}

/// Process exit code when the deletion completes (or there was nothing to do).
pub const EXIT_OK: i32 = 0;

/// Process exit code when no existing file path was supplied.
pub const EXIT_NO_PATH: i32 = 1;

/// The process exit code for a run's outcome: only a missing path fails.
pub fn exit_code(outcome: &Outcome) -> (code: i32)
    ensures
        code == if *outcome is PathNotFound {
            EXIT_NO_PATH
        } else {
            EXIT_OK
        },
{
    match outcome {
        Outcome::PathNotFound => EXIT_NO_PATH,
        _ => EXIT_OK,
    }
}

/// The file names of `entries`, in order.
pub open spec fn names_of(entries: Seq<FileEntry>) -> Seq<Seq<char>> {
    entries.map_values(|e: FileEntry| e.name@)
}

/// The full paths of `entries`, in order.
pub open spec fn paths_of(entries: Seq<FileEntry>) -> Seq<Seq<char>> {
    entries.map_values(|e: FileEntry| e.path@)
}

/// How many of the deletions succeeded.
pub open spec fn success_count(succeeded: Seq<bool>) -> nat
    decreases succeeded.len(),
{
    if succeeded.len() == 0 {
        0
    } else {
        success_count(succeeded.drop_last()) + if succeeded.last() {
            1nat
        } else {
            0nat
        }
    }
}

/// The names whose deletion failed, in order.
pub open spec fn failed_names(names: Seq<Seq<char>>, succeeded: Seq<bool>) -> Seq<Seq<char>>
    decreases succeeded.len(),
{
    if succeeded.len() == 0 || names.len() == 0 {
        Seq::empty()
    } else {
        let rest = failed_names(names.drop_last(), succeeded.drop_last());
        if succeeded.last() {
            rest
        } else {
            rest.push(names.last())
        }
    }
}

/// `outcome` reports the deletion of the files named `names`, where
/// `succeeded[i]` tells whether the deletion of `names[i]` succeeded: all of
/// them deleted, or the count deleted and the names that failed.
pub open spec fn reports(outcome: Outcome, names: Seq<Seq<char>>, succeeded: Seq<bool>) -> bool {
    let failed = failed_names(names, succeeded);
    if failed.len() == 0 {
        outcome matches Outcome::Deleted(count) && count == success_count(succeeded)
    } else {
        &&& outcome matches Outcome::PartialFailure { deleted, failed: f }
        &&& deleted == success_count(succeeded)
        &&& string_views(f@) == failed
    }
}

proof fn lemma_tally_bounds(names: Seq<Seq<char>>, succeeded: Seq<bool>)
    requires
        names.len() == succeeded.len(),
    ensures
        success_count(succeeded) + failed_names(names, succeeded).len() == succeeded.len(),
    decreases succeeded.len(),
{
    if succeeded.len() > 0 {
        lemma_tally_bounds(names.drop_last(), succeeded.drop_last());
    }
}

/// Tallying is done file by file: a single file counts as deleted when its
/// deletion succeeded and is named as failed otherwise, and the tally of two
/// runs of files one after the other is the sum of their counts and the
/// failed names of the first followed by those of the second.
pub proof fn lemma_tally_file_by_file(
    names1: Seq<Seq<char>>,
    ok1: Seq<bool>,
    names2: Seq<Seq<char>>,
    ok2: Seq<bool>,
    name: Seq<char>,
    ok: bool,
)
    requires
        names1.len() == ok1.len(),
        names2.len() == ok2.len(),
    ensures
        success_count(seq![ok]) == if ok {
            1nat
        } else {
            0nat
        },
        failed_names(seq![name], seq![ok]) == if ok {
            Seq::<Seq<char>>::empty()
        } else {
            seq![name]
        },
        success_count(ok1 + ok2) == success_count(ok1) + success_count(ok2),
        failed_names(names1 + names2, ok1 + ok2) == failed_names(names1, ok1) + failed_names(
            names2,
            ok2,
        ),
    decreases ok2.len(),
{
    assert(seq![ok].drop_last() =~= Seq::<bool>::empty());
    assert(seq![name].drop_last() =~= Seq::<Seq<char>>::empty());
    assert(seq![ok].last() == ok);
    assert(seq![name].last() == name);
    assert(success_count(Seq::<bool>::empty()) == 0);
    assert(failed_names(Seq::<Seq<char>>::empty(), Seq::<bool>::empty()) =~= Seq::<Seq<char>>::empty());
    assert(Seq::<Seq<char>>::empty().push(name) =~= seq![name]);
    if ok2.len() == 0 {
        assert(ok1 + ok2 =~= ok1);
        assert(names1 + names2 =~= names1);
        assert(failed_names(names2, ok2) =~= Seq::<Seq<char>>::empty());
        assert(failed_names(names1, ok1) + Seq::<Seq<char>>::empty() =~= failed_names(names1, ok1));
    } else {
        lemma_tally_file_by_file(names1, ok1, names2.drop_last(), ok2.drop_last(), name, ok);
        assert((ok1 + ok2).drop_last() =~= ok1 + ok2.drop_last());
        assert((names1 + names2).drop_last() =~= names1 + names2.drop_last());
        assert((ok1 + ok2).last() == ok2.last());
        assert((names1 + names2).last() == names2.last());
        if !ok2.last() {
            assert(failed_names(names1, ok1) + failed_names(names2.drop_last(), ok2.drop_last()).push(
                names2.last(),
            ) =~= (failed_names(names1, ok1) + failed_names(names2.drop_last(), ok2.drop_last())).push(
                names2.last(),
            ));
        }
    }
}

/// Every file is accounted for: an outcome that reports the deletion of the
/// files `names` either deleted them all, or deleted some of them and names
/// each of the others.
pub proof fn lemma_every_file_accounted_for(
    outcome: Outcome,
    names: Seq<Seq<char>>,
    succeeded: Seq<bool>,
)
    requires
        names.len() == succeeded.len(),
        reports(outcome, names, succeeded),
    ensures
        outcome is Deleted || outcome is PartialFailure,
        outcome matches Outcome::Deleted(count) ==> count == names.len(),
        outcome matches Outcome::PartialFailure { deleted, failed } ==> {
            &&& failed@.len() > 0
            &&& deleted + failed@.len() == names.len()
        },
{
    lemma_tally_bounds(names, succeeded);
    if let Outcome::PartialFailure { deleted, failed } = outcome {
        assert(string_views(failed@).len() == failed@.len());
    }
}

/// The outcome of deleting the files named `names`, where `succeeded[i]`
/// tells whether the deletion of `names[i]` succeeded.
pub fn tally(names: &[String], succeeded: &[bool]) -> (outcome: Outcome)
    requires
        names@.len() == succeeded@.len(),
    ensures
        reports(outcome, string_views(names@), succeeded@),
{
    let ghost views = string_views(names@);
    let mut deleted: usize = 0;
    let mut failed: Vec<String> = Vec::new();
    proof {
        assert(views.take(0) =~= Seq::<Seq<char>>::empty());
        assert(succeeded@.take(0) =~= Seq::<bool>::empty());
    }
    for i in 0..succeeded.len()
        invariant
            names@.len() == succeeded@.len(),
            views == string_views(names@),
            deleted == success_count(succeeded@.take(i as int)),
            string_views(failed@) == failed_names(
                views.take(i as int),
                succeeded@.take(i as int),
            ),
            deleted <= i,
    {
        proof {
            assert(succeeded@.take(i + 1).drop_last() =~= succeeded@.take(i as int));
            assert(views.take(i + 1).drop_last() =~= views.take(i as int));
        }
        if succeeded[i] {
            deleted = deleted + 1;
        } else {
            let ghost before = failed@;
            failed.push(names[i].clone());
            proof {
                assert(string_views(failed@) =~= string_views(before).push(
                    names@[i as int]@,
                ));
            }
        }
    }
    proof {
        assert(succeeded@.take(succeeded@.len() as int) =~= succeeded@);
        assert(views.take(views.len() as int) =~= views);
    }
    if failed.len() == 0 {
        return Outcome::Deleted(deleted);
    }
    Outcome::PartialFailure { deleted, failed }
}

/// The deletions asked for by deleting `paths` in `mode`, in order, where
/// `succeeded[i]` tells whether the deletion of `paths[i]` succeeded.
pub open spec fn deletion_log(paths: Seq<Seq<char>>, mode: Mode, succeeded: Seq<bool>) -> Seq<
    (Seq<char>, Mode, bool),
> {
    Seq::new(succeeded.len(), |i: int| (paths[i], mode, succeeded[i]))
}

/// The deletion log of a run asks for each path once, in order, each in the
/// run's mode and with its own success.
pub proof fn lemma_deletion_log_entries(paths: Seq<Seq<char>>, mode: Mode, succeeded: Seq<bool>)
    requires
        paths.len() == succeeded.len(),
    ensures
        deletion_log(paths, mode, succeeded).len() == paths.len(),
        forall|i: int|
            0 <= i < paths.len() ==> #[trigger] deletion_log(paths, mode, succeeded)[i] == (
                paths[i],
                mode,
                succeeded[i],
            ),
{
}

/// Asks `deleter` to delete every entry in `mode`, once each and in order,
/// and reports the result from its answers.
fn delete_all<D: Deleter>(entries: &[FileEntry], mode: Mode, deleter: &mut D) -> (outcome: Outcome)
    ensures
        exists|succeeded: Seq<bool>|
            {
                &&& succeeded.len() == entries@.len()
                &&& reports(outcome, names_of(entries@), succeeded)
                &&& D::keeps_log() ==> final(deleter).deletions() == old(deleter).deletions()
                    + deletion_log(paths_of(entries@), mode, succeeded)
            },
{
    let ghost start = deleter.deletions();
    let mut succeeded: Vec<bool> = Vec::new();
    let mut names: Vec<String> = Vec::new();
    proof {
        assert(deletion_log(paths_of(entries@), mode, succeeded@) =~= Seq::empty());
        assert(start + Seq::<(Seq<char>, Mode, bool)>::empty() =~= start);
    }
    for i in 0..entries.len()
        invariant
            succeeded@.len() == i,
            names@.len() == i,
            string_views(names@) == names_of(entries@).take(i as int),
            D::keeps_log() ==> deleter.deletions() == start + deletion_log(
                paths_of(entries@),
                mode,
                succeeded@,
            ),
    {
        let ghost log_before = deleter.deletions();
        let ghost succeeded_before = succeeded@;
        let result = deleter.delete(entries[i].path.as_str(), mode);
        let ok = match result {
            Ok(()) => true,
            Err(_) => false,
        };
        succeeded.push(ok);
        proof {
            assert(deletion_log(paths_of(entries@), mode, succeeded@) =~= deletion_log(
                paths_of(entries@),
                mode,
                succeeded_before,
            ).push((entries@[i as int].path@, mode, ok)));
        }
        let ghost before = names@;
        let name = entries[i].name.clone();
        names.push(name);
        proof {
            assert(names@ == before.push(entries@[i as int].name));
            assert forall|j: int| 0 <= j <= i implies #[trigger] string_views(names@)[j]
                == names_of(entries@).take(i + 1)[j] by {
                if j < i {
                    assert(names@[j] == before[j]);
                    assert(string_views(before)[j] == names_of(entries@).take(i as int)[j]);
                }
            }
            assert(string_views(names@) =~= names_of(entries@).take(i + 1));
        }
    }
    proof {
        assert(names_of(entries@).take(entries@.len() as int) =~= names_of(entries@));
    }
    tally(names.as_slice(), succeeded.as_slice())
}

fn path_texts(entries: &[FileEntry]) -> (paths: Vec<&str>)
    ensures
        str_views(paths@) == paths_of(entries@),
{
    let mut paths: Vec<&str> = Vec::new();
    for i in 0..entries.len()
        invariant
            paths@.len() == i,
            str_views(paths@) == paths_of(entries@).take(i as int),
    {
        let ghost before = paths@;
        paths.push(entries[i].path.as_str());
        proof {
            assert forall|j: int| 0 <= j <= i implies #[trigger] str_views(paths@)[j]
                == paths_of(entries@).take(i + 1)[j] by {
                if j < i {
                    assert(paths@[j] == before[j]);
                    assert(str_views(before)[j] == paths_of(entries@).take(i as int)[j]);
                }
            }
            assert(str_views(paths@) =~= paths_of(entries@).take(i + 1));
        }
    }
    proof {
        assert(paths_of(entries@).take(entries@.len() as int) =~= paths_of(entries@));
    }
    paths
}

/// The dialogs a run adds to the confirmation log: one, with its answer,
/// when there are matches and the mode requires confirmation; none
/// otherwise.
pub open spec fn confirmations_of_run(
    matches: Seq<FileEntry>,
    mode: Mode,
    outcome: Outcome,
) -> Seq<(Seq<char>, bool)> {
    if matches.len() > 0 && confirmation_required(mode, matches.len()) {
        seq![(confirmation_text(paths_of(matches)), outcome !is Cancelled)]
    } else {
        Seq::empty()
    }
}

/// The error reports a run adds: one, naming the failed files, on partial
/// failure; none otherwise.
pub open spec fn error_reports_of_run(outcome: Outcome) -> Seq<Seq<char>> {
    match outcome {
        Outcome::PartialFailure { failed, .. } => seq![error_text(string_views(failed@))],
        _ => Seq::empty(),
    }
}

/// Finds every file paired with the selected one and deletes them,
/// confirming and reporting errors through `ui`.
///
/// `scan` is `None` when the supplied path is not an existing file. When the
/// mode requires it, the user is asked once with `message::confirmation` of
/// the matched paths; otherwise no dialog opens. Unless the user declines,
/// every match is handed to `deleter` once, in display order, in `mode`; a
/// missing path, an empty match or a refusal deletes nothing. When some
/// deletions fail, `message::error` of their names is reported once. The
/// calls themselves are stated for implementations that keep logs (see
/// [`Ui`] and [`Deleter`]).
pub fn run<U: Ui, D: Deleter>(scan: Option<Scan>, mode: Mode, ui: &mut U, deleter: &mut D) -> (outcome:
    Outcome)
    ensures
        match scan {
            None => {
                &&& outcome is PathNotFound
                &&& U::keeps_log() ==> final(ui).confirmations() == old(ui).confirmations()
                &&& U::keeps_log() ==> final(ui).error_reports() == old(ui).error_reports()
                &&& D::keeps_log() ==> final(deleter).deletions() == old(deleter).deletions()
            },
            Some(s) => {
                let matches = matching_files(s.target, s.directory@);
                let prompt = confirmation_text(paths_of(matches));
                let deletes = matches.len() > 0 && outcome !is Cancelled;
                &&& outcome !is PathNotFound
                &&& (outcome is NothingToDelete <==> matches.len() == 0)
                &&& (outcome is Cancelled ==> {
                    &&& matches.len() > 0
                    &&& confirmation_required(mode, matches.len())
                    &&& old(ui).answers(prompt, false)
                })
                &&& (matches.len() > 0 && confirmation_required(mode, matches.len()) && outcome
                    !is Cancelled ==> old(ui).answers(prompt, true))
                &&& U::keeps_log() ==> final(ui).confirmations() == old(ui).confirmations()
                    + confirmations_of_run(matches, mode, outcome)
                &&& U::keeps_log() ==> final(ui).error_reports() == old(ui).error_reports()
                    + error_reports_of_run(outcome)
                &&& (deletes ==> exists|succeeded: Seq<bool>|
                    {
                        &&& succeeded.len() == matches.len()
                        &&& reports(outcome, names_of(matches), succeeded)
                        &&& D::keeps_log() ==> final(deleter).deletions() == old(deleter).deletions()
                            + deletion_log(paths_of(matches), mode, succeeded)
                        &&& D::keeps_log() ==> final(deleter).deletions().len() == old(
                            deleter,
                        ).deletions().len() + matches.len()
                        &&& D::keeps_log() ==> forall|i: int|
                            0 <= i < matches.len() ==> #[trigger] final(deleter).deletions()[old(
                                deleter,
                            ).deletions().len() + i] == (matches[i].path@, mode, succeeded[i])
                    })
                &&& (!deletes ==> (D::keeps_log() ==> final(deleter).deletions() == old(
                    deleter,
                ).deletions()))
            },
        },
{
    let scan = match scan {
        None => {
            return Outcome::PathNotFound;
        },
        Some(scan) => scan,
    };
    let matches = find_matching_files(&scan.target, scan.directory.as_slice());
    if matches.len() == 0 {
        proof {
            assert(old(ui).confirmations() + Seq::<(Seq<char>, bool)>::empty() =~= old(ui).confirmations());
            assert(old(ui).error_reports() + Seq::<Seq<char>>::empty() =~= old(ui).error_reports());
        }
        return Outcome::NothingToDelete;
    }
    if mode.requires_confirmation(matches.len()) {
        let paths = path_texts(matches.as_slice());
        let prompt = message::confirmation(paths.as_slice());
        let approved = ui.confirm(prompt.as_str());
        proof {
            if U::keeps_log() {
                assert(ui.confirmations() =~= old(ui).confirmations() + seq![(prompt@, approved)]);
            }
        }
        if !approved {
            proof {
                assert(old(ui).error_reports() + Seq::<Seq<char>>::empty() =~= old(ui).error_reports());
            }
            return Outcome::Cancelled;
        }
    } else {
        proof {
            assert(ui.confirmations() =~= old(ui).confirmations() + Seq::<(Seq<char>, bool)>::empty());
        }
    }
    let ghost deletions_before = deleter.deletions();
    let outcome = delete_all(matches.as_slice(), mode, deleter);
    proof {
        let succeeded = choose|succeeded: Seq<bool>|
            {
                &&& succeeded.len() == matches@.len()
                &&& reports(outcome, names_of(matches@), succeeded)
                &&& D::keeps_log() ==> deleter.deletions() == deletions_before + deletion_log(
                    paths_of(matches@),
                    mode,
                    succeeded,
                )
            };
        lemma_deletion_log_entries(paths_of(matches@), mode, succeeded);
        if D::keeps_log() {
            assert forall|i: int| 0 <= i < matches@.len() implies #[trigger] deleter.deletions()[deletions_before.len() + i] == (matches@[i].path@, mode, succeeded[i]) by {
                assert(deletion_log(paths_of(matches@), mode, succeeded)[i] == (paths_of(matches@)[i], mode, succeeded[i]));
            }
        }
    }
    if let Outcome::PartialFailure { failed, .. } = &outcome {
        let report = message::error(failed.as_slice());
        ui.report_errors(report.as_str());
        proof {
            if U::keeps_log() {
                assert(ui.error_reports() =~= old(ui).error_reports() + seq![report@]);
            }
        }
    } else {
        proof {
            if U::keeps_log() {
                assert(ui.error_reports() =~= old(ui).error_reports() + Seq::<Seq<char>>::empty());
            }
        }
    }
    outcome
}

} // verus!
