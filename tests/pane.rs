use localpane::pane::{
    divine_current_working_dir, get_current_working_dir, ExitPoll, Geometry, LocalPane,
    ProcessAction, PtySize,
};

fn size(rows: u16, cols: u16) -> PtySize {
    PtySize { rows, cols, pixel_width: 0, pixel_height: 0 }
}

#[test]
fn new_pane_has_identity_and_geometry() {
    let p = LocalPane::new(7, 2, size(24, 80));
    assert_eq!(p.pane_id(), 7);
    assert_eq!(p.domain_id(), 2);
    assert_eq!(p.geometry(), Geometry { rows: 24, cols: 80, pixel_width: 0, pixel_height: 0 });
}

#[test]
fn resize_applies_after_pty_accepts() {
    let mut p = LocalPane::new(1, 0, size(24, 80));
    let new_size = PtySize { rows: 30, cols: 100, pixel_width: 8, pixel_height: 16 };
    assert_eq!(p.resize::<String>(new_size, Ok(())), Ok(()));
    assert_eq!(p.geometry(), Geometry { rows: 30, cols: 100, pixel_width: 8, pixel_height: 16 });
}

#[test]
fn failed_pty_resize_keeps_geometry() {
    let mut p = LocalPane::new(1, 0, size(24, 80));
    let before = p.geometry();
    let r = p.resize(size(50, 50), Err("ioctl failed".to_string()));
    assert_eq!(r, Err("ioctl failed".to_string()));
    assert_eq!(p.geometry(), before);
}

#[test]
fn running_child_is_alive() {
    let mut p = LocalPane::new(1, 0, size(24, 80));
    assert!(!p.is_dead(ExitPoll::Running));
    assert!(!p.is_dead(ExitPoll::Running));
}

#[test]
fn exit_is_sticky() {
    let mut p = LocalPane::new(1, 0, size(24, 80));
    assert!(p.is_dead(ExitPoll::Exited));
    assert!(p.is_dead(ExitPoll::Running));
    assert!(p.is_dead(ExitPoll::Running));
}

#[test]
fn failed_poll_counts_as_dead() {
    let mut p = LocalPane::new(1, 0, size(24, 80));
    assert!(p.is_dead(ExitPoll::Failed));
}

#[test]
fn failed_poll_is_not_kept() {
    let mut p = LocalPane::new(1, 0, size(24, 80));
    assert!(p.is_dead(ExitPoll::Failed));
    assert!(!p.is_dead(ExitPoll::Running));
}

#[test]
fn teardown_kills_then_waits() {
    let p = LocalPane::new(1, 0, size(24, 80));
    assert_eq!(p.teardown_actions(), vec![ProcessAction::Kill, ProcessAction::Wait]);
}

#[test]
fn no_leader_gives_no_working_dir() {
    assert!(divine_current_working_dir(None, Some("/tmp")).is_none());
    assert!(divine_current_working_dir(None, None).is_none());
}

#[test]
fn unreadable_cwd_gives_no_working_dir() {
    assert!(divine_current_working_dir(Some(42), None).is_none());
}

#[test]
fn leader_cwd_becomes_file_url() {
    let u = divine_current_working_dir(Some(42), Some("/home/user")).unwrap();
    assert_eq!(u.as_str(), "file:///home/user");
    assert_eq!(u.scheme(), "file");
    assert_eq!(u.path(), "/home/user");
}

#[test]
fn reported_dir_wins_over_probe() {
    let a = url::Url::parse("file://localhost/a").unwrap();
    let b = url::Url::parse("file://localhost/b").unwrap();
    assert_eq!(get_current_working_dir(Some(a.clone()), Some(b.clone())), Some(a));
    assert_eq!(get_current_working_dir(None, Some(b.clone())), Some(b));
    assert_eq!(get_current_working_dir(None, None), None);
}
