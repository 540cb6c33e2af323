use localpane::terminal::{poll_step, Blocking, Mode, ModeTracker, PollStep, ScreenSize};

#[test]
fn screen_size_compares_by_fields() {
    let a = ScreenSize { rows: 24, cols: 80, xpixel: 0, ypixel: 0 };
    let b = a;
    assert_eq!(a, b);
    assert_ne!(a, ScreenSize { rows: 25, ..a });
}

#[test]
fn original_mode_is_restored_after_changes() {
    let mut t = ModeTracker::new(Mode::Cooked);
    assert_eq!(t.set_raw_mode::<String>(Ok(())), Ok(()));
    assert_eq!(t.current(), Mode::Raw);
    assert_eq!(t.set_cooked_mode::<String>(Ok(())), Ok(()));
    assert_eq!(t.set_raw_mode::<String>(Ok(())), Ok(()));
    assert_eq!(t.mode_to_restore(), Mode::Cooked);
}

#[test]
fn refused_raw_mode_keeps_mode() {
    let mut t = ModeTracker::new(Mode::Cooked);
    assert_eq!(t.set_raw_mode(Err(5)), Err(5));
    assert_eq!(t.current(), Mode::Cooked);
}

#[test]
fn poll_delivers_queued_event() {
    assert_eq!(poll_step(Blocking::Wait, Some(3)), PollStep::Deliver(Some(3)));
    assert_eq!(poll_step(Blocking::DoNotWait, Some(3)), PollStep::Deliver(Some(3)));
}

#[test]
fn poll_without_input() {
    assert_eq!(poll_step::<u8>(Blocking::DoNotWait, None), PollStep::Deliver(None));
    assert_eq!(poll_step::<u8>(Blocking::Wait, None), PollStep::Suspend);
}
