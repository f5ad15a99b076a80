use faststone_double_shot::Mode;

#[test]
fn recycle_bin_is_silent_for_a_pair() {
    assert!(!Mode::RecycleBin.requires_confirmation(2));
}

#[test]
fn recycle_bin_confirms_beyond_two_files() {
    assert!(Mode::RecycleBin.requires_confirmation(3));
}

#[test]
fn permanent_confirms_even_for_a_single_file() {
    assert!(Mode::Permanent.requires_confirmation(1));
}

// ----- further cases -----

#[test]
fn recycle_bin_is_silent_for_a_single_file() {
    assert!(!Mode::RecycleBin.requires_confirmation(1));
    assert!(!Mode::RecycleBin.requires_confirmation(0));
}

#[test]
fn both_modes_confirm_large_sets() {
    assert!(Mode::RecycleBin.requires_confirmation(100));
    assert!(Mode::Permanent.requires_confirmation(100));
    assert!(Mode::Permanent.requires_confirmation(0));
}
