use normfs::offloader::{
    check_put, check_stored, is_copied, Checked, IdRange, IoKind, OffloadError, OffloadState,
    OffloadStep, Uploaded,
};
use normfs::uintn::UintN;

#[test]
fn a_local_failure_stays_and_any_other_may_pass() {
    let e = OffloadError::from_io(IoKind::NotFound, "gone".to_string());
    assert_eq!(e, OffloadError::LocalFileError("gone".to_string()));
    assert_eq!(e.message(), "Local file error: gone");
    let e = OffloadError::from_io(IoKind::PermissionDenied, "no".to_string());
    assert_eq!(e, OffloadError::LocalFileError("no".to_string()));
    let e = OffloadError::from_io(IoKind::Other, "slow".to_string());
    assert_eq!(e, OffloadError::RemoteError("slow".to_string()));
    assert_eq!(e.message(), "Remote error: slow");
}

#[test]
fn a_put_counts_once_the_object_is_there_in_full() {
    assert_eq!(check_put(200), Ok(()));
    assert_eq!(
        check_put(503),
        Err(OffloadError::RemoteError(
            "Failed to upload to S3, response code: 503".to_string()
        ))
    );
    assert_eq!(check_stored("q/001", 10, Some(10)), Ok(()));
    assert_eq!(
        check_stored("q/001", 10, None),
        Err(OffloadError::RemoteError("Not found after upload: q/001".to_string()))
    );
    assert_eq!(
        check_stored("q/001", 10, Some(9)),
        Err(OffloadError::RemoteError(
            "Size mismatch after upload: local=10, s3=9".to_string()
        ))
    );
}

#[test]
fn a_copy_of_another_size_is_no_copy() {
    assert!(is_copied(10, Some(10)));
    assert!(!is_copied(10, Some(11)));
    assert!(!is_copied(10, None));
}

#[test]
fn the_latest_copied_file_never_goes_back() {
    let mut state = OffloadState::new();
    assert_eq!(state.get_latest_offloaded_id(), None);
    let (two, five) = (UintN::from(2u64), UintN::from(5u64));
    assert_eq!(state.checked(&five, Checked::Missing), OffloadStep::Upload);
    assert_eq!(state.uploaded(&five, Uploaded::RemoteFailure), OffloadStep::Retry);
    assert_eq!(state.get_latest_offloaded_id(), None);
    assert_eq!(state.uploaded(&five, Uploaded::Copied), OffloadStep::Finished);
    assert_eq!(state.get_latest_offloaded_id(), Some(UintN::from(5u64)));
    assert_eq!(state.checked(&two, Checked::Copied), OffloadStep::Finished);
    assert_eq!(state.get_latest_offloaded_id(), Some(UintN::from(5u64)));
}

#[test]
fn a_file_that_cannot_be_read_is_skipped() {
    let mut state = OffloadState::new();
    let id = UintN::from(1u64);
    assert_eq!(state.checked(&id, Checked::LocalFailure), OffloadStep::Skipped);
    assert_eq!(state.uploaded(&id, Uploaded::LocalFailure), OffloadStep::Skipped);
    assert_eq!(state.checked(&id, Checked::RemoteFailure), OffloadStep::Retry);
    assert_eq!(state.get_latest_offloaded_id(), None);
}

#[test]
fn the_ids_of_a_range_come_one_after_the_other() {
    let mut range = IdRange::new(UintN::from(7u64), UintN::from(9u64));
    let mut ids = Vec::new();
    while let Some(id) = range.take() {
        ids.push(id);
    }
    assert_eq!(ids, vec![UintN::from(7u64), UintN::from(8u64), UintN::from(9u64)]);
    assert_eq!(range.take(), None);
}
