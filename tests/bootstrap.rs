use extreme_bevy::bootstrap::{ascending_handles, Bootstrap, BootstrapError};

#[test]
fn waits_until_enough_players() {
    let mut b = Bootstrap::new(2, 7);
    assert_eq!(b.try_start(&vec![7]), Ok(false));
    assert!(!b.is_running());
    assert!(b.handles().is_empty());
    assert_eq!(b.local_handle(), None);
}

#[test]
fn handles_follow_ascending_identifier() {
    // peers A = 3 and B = 9, discovered as B then A
    let mut b = Bootstrap::new(2, 9);
    assert_eq!(b.try_start(&vec![9, 3]), Ok(true));
    assert!(b.is_running());
    assert_eq!(b.handles(), vec![3, 9]);
    assert_eq!(b.handle_of(3), Some(0));
    assert_eq!(b.handle_of(9), Some(1));
    assert_eq!(b.local_handle(), Some(1));
}

#[test]
fn second_start_is_already_started() {
    let mut b = Bootstrap::new(2, 3);
    assert_eq!(b.try_start(&vec![3, 9]), Ok(true));
    let before = b.handles();
    assert_eq!(b.try_start(&vec![3, 9]), Err(BootstrapError::AlreadyStarted));
    assert_eq!(b.handles(), before);
    assert!(b.is_running());
}

#[test]
fn unbindable_peer_lists_fail_and_keep_waiting() {
    let mut b = Bootstrap::new(2, 3);
    assert_eq!(b.try_start(&vec![3, 3]), Err(BootstrapError::SessionBuildError));
    assert_eq!(b.try_start(&vec![3, 4, 5]), Err(BootstrapError::SessionBuildError));
    assert_eq!(b.try_start(&vec![4, 5]), Err(BootstrapError::SessionBuildError));
    assert!(!b.is_running());
    assert_eq!(b.try_start(&vec![5, 3]), Ok(true));
    assert_eq!(b.handles(), vec![3, 5]);
}

#[test]
fn reset_drops_bindings() {
    let mut b = Bootstrap::new(2, 3);
    assert_eq!(b.try_start(&vec![3, 4]), Ok(true));
    b.reset();
    assert!(!b.is_running());
    assert!(b.handles().is_empty());
    assert_eq!(b.try_start(&vec![8, 3]), Ok(true));
    assert_eq!(b.handles(), vec![3, 8]);
}

#[test]
fn ascending_handles_sorts_and_detects_duplicates() {
    assert_eq!(ascending_handles(&vec![5, 1, 4, 2]), Some(vec![1, 2, 4, 5]));
    assert_eq!(ascending_handles(&vec![]), Some(vec![]));
    assert_eq!(ascending_handles(&vec![5, 1, 5]), None);
}
