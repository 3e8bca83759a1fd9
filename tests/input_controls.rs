use raymarcher::controls::{Controls, Input};

#[test]
fn controls_start_at_rest() {
    let c = Controls::new();
    assert_eq!((c.turn_x, c.turn_y, c.forward, c.recenter), (0, 0, false, false));
}

#[test]
fn mouse_motion_turns_and_asks_for_recenter() {
    let mut c = Controls::new();
    c.handle(Input::MouseMotion { xrel: 10, yrel: -4 });
    c.handle(Input::MouseMotion { xrel: -3, yrel: 6 });
    assert_eq!(c.turn_x, -7);
    assert_eq!(c.turn_y, 2);
    assert!(c.take_recenter());
    assert!(!c.take_recenter());
    assert_eq!(c.turn_x, -7);
}

#[test]
fn forward_key_sets_and_clears_motion() {
    let mut c = Controls::new();
    c.handle(Input::ForwardPressed);
    assert!(c.forward);
    c.handle(Input::Other);
    assert!(c.forward);
    c.handle(Input::ForwardReleased);
    assert!(!c.forward);
    assert!(!c.recenter);
}

#[test]
fn turning_saturates() {
    let mut c = Controls { turn_x: i64::MIN + 5, turn_y: i64::MAX - 1, forward: false, recenter: false };
    c.handle(Input::MouseMotion { xrel: 100, yrel: 100 });
    assert_eq!(c.turn_x, i64::MIN);
    assert_eq!(c.turn_y, i64::MAX);
}
