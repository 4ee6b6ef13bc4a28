use typetris::game::timer::{Msg, Timer};

/// Seconds, as the timer counts them here: in milliseconds.
fn s(seconds: f64) -> u32 {
    (seconds * 1000.0).round() as u32
}

fn msg(should_spawn: bool, should_fall: bool, should_drift: bool) -> Msg {
    Msg { should_spawn, should_fall, should_drift }
}

#[test]
fn timer_t0() {
    let mut timer = Timer::new(s(1.0), s(2.0), 2);
    assert_eq!(timer.tick(s(0.7)), msg(false, false, false));
    assert_eq!(timer.last_delta(), &s(0.7));
    assert_eq!(timer.tick(s(0.7)), msg(false, true, false));
    assert_eq!(timer.last_delta(), &s(0.7));
    assert_eq!(timer.tick(s(0.8)), msg(true, true, true));
    assert_eq!(timer.last_delta(), &s(0.8));
    assert_eq!(timer.tick(s(0.2)), msg(false, false, false));
    assert_eq!(timer.last_delta(), &s(0.2));
}

#[test]
fn a_countdown_that_reaches_zero_is_due() {
    let mut timer = Timer::new(10, 1000, 3);
    assert_eq!(timer.tick(9), msg(false, false, false));
    assert_eq!(timer.tick(1), msg(false, true, false));
    assert_eq!(timer.tick(10), msg(false, true, false));
    assert_eq!(timer.tick(10), msg(false, true, true));
    assert_eq!(timer.tick(10), msg(false, true, false));
}

#[test]
fn a_long_tick_is_one_fall() {
    let mut timer = Timer::new(10, 1_000_000, 100);
    // 35 units pass at once: one fall, and the countdown stays behind
    assert_eq!(timer.tick(35), msg(false, true, false));
    // it stands at -15 now, so the next ticks are due too, however short
    assert_eq!(timer.tick(0), msg(false, true, false));
    assert_eq!(timer.tick(0), msg(false, true, false));
    // and now at 5
    assert_eq!(timer.tick(4), msg(false, false, false));
    assert_eq!(timer.tick(1), msg(false, true, false));
}

#[test]
fn getters_read_the_fields() {
    let m = msg(true, false, true);
    assert!(m.should_spawn());
    assert!(!m.should_fall());
    assert!(m.should_drift());
}

#[test]
fn drift_interval_of_one_drifts_at_every_fall() {
    let mut timer = Timer::new(5, 1000, 1);
    assert_eq!(timer.tick(4), msg(false, false, false));
    assert_eq!(timer.tick(1), msg(false, true, true));
    assert_eq!(timer.tick(5), msg(false, true, true));
    assert_eq!(timer.tick(1), msg(false, false, false));
}

#[test]
fn drift_interval_of_zero_is_always_due() {
    let mut timer = Timer::new(5, 1000, 0);
    assert_eq!(timer.tick(1), msg(false, false, true));
    assert_eq!(timer.tick(4), msg(false, true, true));
}

#[test]
fn countdowns_stop_at_the_least_number() {
    let mut timer = Timer::new(0, u32::MAX, 200);
    let a = timer;
    assert_eq!(a, timer);
    for _ in 0..1000 {
        assert!(timer.tick(u32::MAX).should_fall());
    }
    assert_eq!(timer.last_delta(), &u32::MAX);
}
