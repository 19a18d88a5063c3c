use qem::sidecar::{editlog_file_name, line_index_file_name, stored_time_ns};
use qem::source_identity::{
    fingerprint_seed, hash_sample, sample_starts, sampled_content_fingerprint,
    sampled_content_fingerprint_budget, FINGERPRINT_WINDOW_BYTES, FULL_FINGERPRINT_MAX_BYTES,
};

#[test]
fn sampled_content_fingerprint_changes_with_small_edits() {
    let left = b"alpha\nbeta\ngamma\n".repeat(4096);
    let mut right = left.clone();
    let middle = right.len() / 2;
    right[middle] ^= 1;

    assert_ne!(
        sampled_content_fingerprint(&left),
        sampled_content_fingerprint(&right)
    );
}

#[test]
fn sampled_content_fingerprint_budget_matches_sampled_windows() {
    assert_eq!(sampled_content_fingerprint_budget(0), 0);
    assert_eq!(sampled_content_fingerprint_budget(17), 17);
    assert_eq!(
        sampled_content_fingerprint_budget(FULL_FINGERPRINT_MAX_BYTES),
        FULL_FINGERPRINT_MAX_BYTES
    );
    assert_eq!(
        sampled_content_fingerprint_budget(FULL_FINGERPRINT_MAX_BYTES + 1),
        5 * FINGERPRINT_WINDOW_BYTES
    );
}

#[test]
fn windows_hashed_one_by_one_give_the_fingerprint() {
    let bytes = b"abcd\n".repeat(10_000);
    let mut state = fingerprint_seed(bytes.len());
    for start in sample_starts(bytes.len()) {
        hash_sample(&mut state, start, &bytes[start..start + FINGERPRINT_WINDOW_BYTES]);
    }
    assert_eq!(state, sampled_content_fingerprint(&bytes));
}

#[test]
fn fingerprints_depend_on_the_length() {
    assert_ne!(
        sampled_content_fingerprint(b""),
        sampled_content_fingerprint(b"\0")
    );
}

#[test]
fn sidecar_files_are_hidden_and_named_after_the_source() {
    assert_eq!(line_index_file_name(Some("notes.txt")), ".notes.txt.qem.lineidx");
    assert_eq!(editlog_file_name(Some("notes.txt")), ".notes.txt.qem.editlog");
    assert_eq!(editlog_file_name(Some("")), ".qem.qem.editlog");
    assert_eq!(line_index_file_name(None), ".qem.qem.lineidx");
}

#[test]
fn times_are_stored_in_sixty_four_bits() {
    assert_eq!(stored_time_ns(5), 5);
    assert_eq!(stored_time_ns(u64::MAX as u128 + 5), u64::MAX);
}
