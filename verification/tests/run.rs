use faststone_double_shot::matching::{FileEntry, Scan};
use faststone_double_shot::{exit_code, run, Deleter, Mode, Outcome, Ui, EXIT_NO_PATH, EXIT_OK};
use std::cell::RefCell;
use std::path::Path;

const DIRECTORY: &str = "/photos";

fn entry(name: &str) -> FileEntry {
    FileEntry::new(format!("{DIRECTORY}/{name}"), name.to_string())
}

/// The selected file `target` in a directory holding `files` (the target among them).
fn scan(target: &str, files: &[&str]) -> Option<Scan> {
    Some(Scan { target: entry(target), directory: files.iter().map(|name| entry(name)).collect() })
}

fn file_name(path: &str) -> String {
    Path::new(path).file_name().unwrap_or_default().to_string_lossy().into_owned()
}

struct FakeUi {
    approve: bool,
    confirmed: RefCell<bool>,
    prompts: RefCell<Vec<String>>,
    errors: RefCell<Vec<String>>,
}

impl FakeUi {
    fn approving() -> Self {
        Self::new(true)
    }

    fn declining() -> Self {
        Self::new(false)
    }

    fn new(approve: bool) -> Self {
        Self {
            approve,
            confirmed: RefCell::new(false),
            prompts: RefCell::new(Vec::new()),
            errors: RefCell::new(Vec::new()),
        }
    }
}

impl Ui for FakeUi {
    fn confirm(&mut self, message: &str) -> bool {
        *self.confirmed.borrow_mut() = true;
        self.prompts.borrow_mut().push(message.to_string());
        self.approve
    }

    fn report_errors(&mut self, message: &str) {
        self.errors.borrow_mut().push(message.to_string());
    }
}

struct FakeDeleter {
    fail: Vec<String>,
    deleted: RefCell<Vec<String>>,
    modes: RefCell<Vec<Mode>>,
}

impl FakeDeleter {
    fn new() -> Self {
        Self { fail: Vec::new(), deleted: RefCell::new(Vec::new()), modes: RefCell::new(Vec::new()) }
    }

    fn failing(names: &[&str]) -> Self {
        Self {
            fail: names.iter().map(|name| name.to_string()).collect(),
            deleted: RefCell::new(Vec::new()),
            modes: RefCell::new(Vec::new()),
        }
    }
}

impl Deleter for FakeDeleter {
    fn delete(&mut self, path: &str, mode: Mode) -> Result<(), String> {
        self.modes.borrow_mut().push(mode);
        let name = file_name(path);
        if self.fail.contains(&name) {
            return Err("boom".to_string());
        }

        self.deleted.borrow_mut().push(name);
        Ok(())
    }
}

#[test]
fn deletes_a_pair_silently_in_recycle_mode() {
    let mut ui = FakeUi::declining();
    let mut deleter = FakeDeleter::new();

    let outcome = run(scan("shot.jpg", &["shot.jpg", "shot.cr2"]), Mode::RecycleBin, &mut ui, &mut deleter);

    assert_eq!(outcome, Outcome::Deleted(2));
    assert!(!*ui.confirmed.borrow());
    assert_eq!(*deleter.deleted.borrow(), ["shot.cr2", "shot.jpg"]);
}

#[test]
fn confirms_before_deleting_three_or_more_in_recycle_mode() {
    let mut ui = FakeUi::approving();

    let outcome = run(
        scan("burst.jpg", &["burst.jpg", "burst.cr2", "burst.nef"]),
        Mode::RecycleBin,
        &mut ui,
        &mut FakeDeleter::new(),
    );

    assert_eq!(outcome, Outcome::Deleted(3));
    assert!(*ui.confirmed.borrow());
}

#[test]
fn permanent_mode_confirms_even_for_a_single_file() {
    let mut ui = FakeUi::approving();

    let outcome = run(scan("shot.jpg", &["shot.jpg"]), Mode::Permanent, &mut ui, &mut FakeDeleter::new());

    assert_eq!(outcome, Outcome::Deleted(1));
    assert!(*ui.confirmed.borrow());
}

#[test]
fn declining_the_confirmation_deletes_nothing() {
    let mut deleter = FakeDeleter::new();

    let outcome = run(scan("shot.jpg", &["shot.jpg"]), Mode::Permanent, &mut FakeUi::declining(), &mut deleter);

    assert_eq!(outcome, Outcome::Cancelled);
    assert!(deleter.deleted.borrow().is_empty());
}

#[test]
fn reports_a_missing_path() {
    let outcome = run(None, Mode::RecycleBin, &mut FakeUi::approving(), &mut FakeDeleter::new());

    assert_eq!(outcome, Outcome::PathNotFound);
}

#[test]
fn reports_nothing_to_delete_for_an_unsupported_file() {
    let outcome = run(scan("scan.tiff", &["scan.tiff"]), Mode::RecycleBin, &mut FakeUi::approving(), &mut FakeDeleter::new());

    assert_eq!(outcome, Outcome::NothingToDelete);
}

#[test]
fn reports_files_that_could_not_be_deleted() {
    let mut ui = FakeUi::approving();
    let mut deleter = FakeDeleter::failing(&["shot.cr2"]);

    let outcome = run(scan("shot.jpg", &["shot.jpg", "shot.cr2"]), Mode::RecycleBin, &mut ui, &mut deleter);

    assert_eq!(outcome, Outcome::PartialFailure { deleted: 1, failed: vec!["shot.cr2".to_string()] });
    assert_eq!(*deleter.deleted.borrow(), ["shot.jpg"]);
    assert_eq!(ui.errors.borrow().len(), 1);
}

// ----- further cases -----

#[test]
fn the_prompt_lists_the_matched_paths_in_display_order() {
    let mut ui = FakeUi::approving();

    let outcome = run(
        scan("burst.jpg", &["burst.nef", "burst.jpg", "other.jpg", "burst.cr2"]),
        Mode::RecycleBin,
        &mut ui,
        &mut FakeDeleter::new(),
    );

    assert_eq!(outcome, Outcome::Deleted(3));
    assert_eq!(
        *ui.prompts.borrow(),
        ["Delete the following 3 file(s)?\n\n - /photos/burst.cr2\n - /photos/burst.jpg\n - /photos/burst.nef"]
    );
}

#[test]
fn the_error_report_names_every_failed_file() {
    let mut ui = FakeUi::approving();
    let mut deleter = FakeDeleter::failing(&["shot.cr2", "shot.jpg"]);

    let outcome = run(scan("shot.jpg", &["shot.jpg", "shot.cr2"]), Mode::Permanent, &mut ui, &mut deleter);

    assert_eq!(
        outcome,
        Outcome::PartialFailure { deleted: 0, failed: vec!["shot.cr2".to_string(), "shot.jpg".to_string()] }
    );
    assert_eq!(*ui.errors.borrow(), ["Could not delete:\nshot.cr2\nshot.jpg"]);
}

#[test]
fn a_full_success_reports_no_error() {
    let mut ui = FakeUi::approving();

    let outcome = run(scan("a.dng", &["a.dng", "a.ARW"]), Mode::RecycleBin, &mut ui, &mut FakeDeleter::new());

    assert_eq!(outcome, Outcome::Deleted(2));
    assert!(ui.errors.borrow().is_empty());
}

#[test]
fn every_deletion_uses_the_chosen_mode() {
    let mut deleter = FakeDeleter::new();

    run(scan("shot.jpg", &["shot.jpg", "shot.cr2"]), Mode::Permanent, &mut FakeUi::approving(), &mut deleter);

    assert_eq!(*deleter.modes.borrow(), [Mode::Permanent, Mode::Permanent]);
}

#[test]
fn selecting_the_raw_deletes_the_same_pair() {
    let mut deleter = FakeDeleter::new();

    let outcome = run(scan("shot.cr2", &["shot.jpg", "shot.cr2"]), Mode::RecycleBin, &mut FakeUi::declining(), &mut deleter);

    assert_eq!(outcome, Outcome::Deleted(2));
    assert_eq!(*deleter.deleted.borrow(), ["shot.cr2", "shot.jpg"]);
}

#[test]
fn nothing_to_delete_when_the_target_is_not_listed_and_has_no_pairs() {
    let outcome = run(scan("shot.jpg", &["other.jpg"]), Mode::RecycleBin, &mut FakeUi::approving(), &mut FakeDeleter::new());

    assert_eq!(outcome, Outcome::NothingToDelete);
}

#[test]
fn only_a_missing_path_fails_the_process() {
    assert_eq!(exit_code(&Outcome::PathNotFound), EXIT_NO_PATH);
    assert_eq!(exit_code(&Outcome::Deleted(2)), EXIT_OK);
    assert_eq!(exit_code(&Outcome::Cancelled), EXIT_OK);
    assert_eq!(exit_code(&Outcome::NothingToDelete), EXIT_OK);
    assert_eq!(exit_code(&Outcome::PartialFailure { deleted: 0, failed: vec!["a.jpg".to_string()] }), EXIT_OK);
    assert_eq!((EXIT_OK, EXIT_NO_PATH), (0, 1));
}

#[test]
fn a_missing_path_touches_neither_dialog_nor_deleter() {
    let mut ui = FakeUi::approving();
    let mut deleter = FakeDeleter::new();

    run(None, Mode::Permanent, &mut ui, &mut deleter);

    assert!(ui.prompts.borrow().is_empty());
    assert!(ui.errors.borrow().is_empty());
    assert!(deleter.modes.borrow().is_empty());
}

#[test]
fn an_unsupported_file_touches_neither_dialog_nor_deleter() {
    let mut ui = FakeUi::approving();
    let mut deleter = FakeDeleter::new();

    let outcome = run(scan("shot.tiff", &["shot.tiff", "shot.jpg"]), Mode::Permanent, &mut ui, &mut deleter);

    assert_eq!(outcome, Outcome::NothingToDelete);
    assert!(ui.prompts.borrow().is_empty());
    assert!(deleter.modes.borrow().is_empty());
}

#[test]
fn the_confirmation_is_asked_once_and_the_report_shown_once() {
    let mut ui = FakeUi::approving();
    let mut deleter = FakeDeleter::failing(&["burst.nef"]);

    let outcome = run(scan("burst.jpg", &["burst.jpg", "burst.cr2", "burst.nef"]), Mode::RecycleBin, &mut ui, &mut deleter);

    assert_eq!(outcome, Outcome::PartialFailure { deleted: 2, failed: vec!["burst.nef".to_string()] });
    assert_eq!(ui.prompts.borrow().len(), 1);
    assert_eq!(*ui.errors.borrow(), ["Could not delete:\nburst.nef"]);
    assert_eq!(deleter.modes.borrow().len(), 3);
}
