use faststone_double_shot::{tally, Outcome};

fn names(list: &[&str]) -> Vec<String> {
    list.iter().map(|s| s.to_string()).collect()
}

#[test]
fn all_successes_count_every_file() {
    assert_eq!(tally(&names(&["a.jpg", "a.cr2"]), &[true, true]), Outcome::Deleted(2));
}

#[test]
fn failures_are_named_in_order() {
    assert_eq!(
        tally(&names(&["a.cr2", "a.jpg", "a.nef"]), &[false, true, false]),
        Outcome::PartialFailure { deleted: 1, failed: names(&["a.cr2", "a.nef"]) }
    );
}

#[test]
fn nothing_deleted_when_everything_fails() {
    assert_eq!(
        tally(&names(&["a.jpg"]), &[false]),
        Outcome::PartialFailure { deleted: 0, failed: names(&["a.jpg"]) }
    );
}

#[test]
fn an_empty_run_deletes_nothing() {
    assert_eq!(tally(&[], &[]), Outcome::Deleted(0));
}
