use ugg::busy::{
    acquire_within, is_busy, is_busy_for, is_held_elsewhere, update_lock_path, BusyFlag,
    IrodoriBusyGuard, LockAttempt, LockWait,
};
use ugg::paths::AssetPath;

#[test]
fn install_and_update_do_not_overlap() {
    let mut flag = BusyFlag::new();
    let first = IrodoriBusyGuard::acquire(&mut flag).expect("1 本目は取れる");
    assert!(IrodoriBusyGuard::acquire(&mut flag).is_err(), "進行中はもう 1 本走らせない");
    first.release(&mut flag);
    assert!(
        IrodoriBusyGuard::acquire(&mut flag).is_ok(),
        "終わったら次が取れる（途中で return しても取り残さない）"
    );
}

#[test]
fn the_update_lock_holds_both_the_process_flag_and_the_file_lock() {
    let mut flag = BusyFlag::new();
    let guard =
        IrodoriBusyGuard::acquire_for(&mut flag, &LockAttempt::Taken, "update.lock").expect("取れる");
    assert!(is_busy(&flag), "握っている間はプロセスの中の印が立っている");
    assert!(guard.cross_process, "ファイルの錠も握っている（もう 1 つの ugg から見える）");
    guard.release(&mut flag);
    assert!(!is_busy(&flag), "放したら印も外れる");
}

#[test]
fn another_ugg_holding_the_update_lock_is_refused_without_leaving_a_flag() {
    let mut flag = BusyFlag::new();
    let held = LockAttempt::HeldElsewhere;
    let err =
        IrodoriBusyGuard::acquire_for(&mut flag, &held, "update.lock").err().expect("取れない");
    assert!(err.contains("もう 1 つの ugg"), "{err}");
    assert!(!is_busy(&flag), "断ったらプロセスの中の印を残さない");
    assert!(is_busy_for(&flag, &held), "もう 1 つの ugg の更新を、合成の側も見る");
    assert!(!is_busy_for(&flag, &LockAttempt::Taken), "終われば見えなくなる");
}

#[test]
fn a_lock_that_cannot_be_tried_is_told_with_its_place() {
    let mut flag = BusyFlag::new();
    let failed = LockAttempt::Failed("denied".to_string());
    let err = IrodoriBusyGuard::acquire_for(&mut flag, &failed, "L").err().unwrap();
    assert_eq!(err, "導入・更新の錠を取れません（L）: denied");
    assert!(!is_busy(&flag));
    assert!(!is_busy_for(&flag, &failed), "確かめられなければ止める側に倒さない");
    assert_eq!(update_lock_path(&AssetPath::new("R")).parts, vec!["update.lock"]);
}

#[test]
fn a_briefly_held_lock_is_taken_after_a_short_wait() {
    assert_eq!(acquire_within(&LockAttempt::HeldElsewhere, 0, 200), LockWait::TryAgain);
    assert_eq!(acquire_within(&LockAttempt::Taken, 100, 200), LockWait::Take);
    assert_eq!(acquire_within(&LockAttempt::HeldElsewhere, 200, 200), LockWait::GiveUp);
    assert_eq!(
        acquire_within(&LockAttempt::Failed("x".to_string()), 0, 200),
        LockWait::Fail
    );
}

#[test]
fn a_held_lock_blocks_another_acquisition_until_released() {
    assert!(is_held_elsewhere(&LockAttempt::HeldElsewhere));
    assert!(!is_held_elsewhere(&LockAttempt::Taken));
    assert!(!is_held_elsewhere(&LockAttempt::Failed("x".to_string())));
}
