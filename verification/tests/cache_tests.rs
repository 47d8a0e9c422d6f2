use vbus_log_sync::cache::{
    needs_download, parse_content_length, sync_step, SyncAction, SyncEvent, SyncState,
};
use vbus_log_sync::error::Error;

#[test]
fn content_length_is_read_or_refused() {
    assert_eq!(parse_content_length(Some(b"1024")), Ok(1024));
    assert_eq!(parse_content_length(Some(b"0")), Ok(0));
    assert_eq!(parse_content_length(None), Err(Error::Protocol));
    assert_eq!(parse_content_length(Some(b"")), Err(Error::Protocol));
    assert_eq!(parse_content_length(Some(b"12 ")), Err(Error::Protocol));
    assert_eq!(parse_content_length(Some(b"99999999999999999999")), Err(Error::Protocol));
}

#[test]
fn download_is_needed_on_size_mismatch_only() {
    assert!(!needs_download(10, Some(10)));
    assert!(needs_download(10, Some(9)));
    assert!(needs_download(10, None));
    assert!(!needs_download(0, None));
}

#[test]
fn equal_size_issues_no_get() {
    let mut gets = 0;
    let (state, action) = sync_step(SyncState::Idle, SyncEvent::Begin);
    assert_eq!(state, SyncState::Probing);
    assert!(matches!(action, SyncAction::Probe));
    let (state, action) = sync_step(
        state,
        SyncEvent::Probed { success: true, content_length: Some(b"42".to_vec()), cached_size: Some(42) },
    );
    if matches!(action, SyncAction::Fetch) {
        gets += 1;
    }
    assert_eq!(state, SyncState::Done);
    assert!(matches!(action, SyncAction::Finish));
    let (state, action) = sync_step(state, SyncEvent::Stored { success: true });
    if matches!(action, SyncAction::Fetch) {
        gets += 1;
    }
    assert_eq!(state, SyncState::Done);
    assert_eq!(gets, 0);
}

#[test]
fn size_mismatch_fetches_once_and_stores_the_whole_body() {
    let mut gets = 0;
    let (state, _) = sync_step(SyncState::Idle, SyncEvent::Begin);
    let (state, action) = sync_step(
        state,
        SyncEvent::Probed { success: true, content_length: Some(b"5".to_vec()), cached_size: Some(3) },
    );
    if matches!(action, SyncAction::Fetch) {
        gets += 1;
    }
    assert_eq!(state, SyncState::Fetching);
    let (state, action) =
        sync_step(state, SyncEvent::Fetched { success: true, body: b"hello".to_vec() });
    if matches!(action, SyncAction::Fetch) {
        gets += 1;
    }
    assert_eq!(state, SyncState::Storing);
    match action {
        SyncAction::Store(bytes) => assert_eq!(bytes, b"hello".to_vec()),
        other => panic!("unexpected action {:?}", other),
    }
    let (state, action) = sync_step(state, SyncEvent::Stored { success: true });
    if matches!(action, SyncAction::Fetch) {
        gets += 1;
    }
    assert_eq!(state, SyncState::Done);
    assert!(matches!(action, SyncAction::Finish));
    assert_eq!(gets, 1);
}

#[test]
fn missing_cache_file_counts_as_empty() {
    let (state, action) = sync_step(
        SyncState::Probing,
        SyncEvent::Probed { success: true, content_length: Some(b"0".to_vec()), cached_size: None },
    );
    assert_eq!(state, SyncState::Done);
    assert!(matches!(action, SyncAction::Finish));
    let (state, action) = sync_step(
        SyncState::Probing,
        SyncEvent::Probed { success: true, content_length: Some(b"7".to_vec()), cached_size: None },
    );
    assert_eq!(state, SyncState::Fetching);
    assert!(matches!(action, SyncAction::Fetch));
}

#[test]
fn failures_end_the_synchronisation() {
    let (state, _) = sync_step(
        SyncState::Probing,
        SyncEvent::Probed { success: false, content_length: Some(b"7".to_vec()), cached_size: None },
    );
    assert_eq!(state, SyncState::Failed(Error::Transport));
    let (state, _) = sync_step(
        SyncState::Probing,
        SyncEvent::Probed { success: true, content_length: None, cached_size: None },
    );
    assert_eq!(state, SyncState::Failed(Error::Protocol));
    let (state, _) = sync_step(
        SyncState::Probing,
        SyncEvent::Probed { success: true, content_length: Some(b"x".to_vec()), cached_size: None },
    );
    assert_eq!(state, SyncState::Failed(Error::Protocol));
    let (state, _) =
        sync_step(SyncState::Fetching, SyncEvent::Fetched { success: false, body: Vec::new() });
    assert_eq!(state, SyncState::Failed(Error::Transport));
    let (state, _) = sync_step(SyncState::Storing, SyncEvent::Stored { success: false });
    assert_eq!(state, SyncState::Failed(Error::Filesystem));
    let (state, action) = sync_step(state, SyncEvent::Begin);
    assert_eq!(state, SyncState::Failed(Error::Filesystem));
    assert!(matches!(action, SyncAction::Finish));
}

#[test]
fn event_out_of_turn_is_a_protocol_error() {
    let (state, action) = sync_step(SyncState::Idle, SyncEvent::Stored { success: true });
    assert_eq!(state, SyncState::Failed(Error::Protocol));
    assert!(matches!(action, SyncAction::Finish));
    let (state, _) = sync_step(SyncState::Fetching, SyncEvent::Begin);
    assert_eq!(state, SyncState::Failed(Error::Protocol));
}
