use pathtracer::input::{handle_input, Key, Motion};

fn still() -> Motion {
    Motion {
        origin_right: 0,
        origin_up: 0,
        origin_forward: 0,
        target_right: 0,
        target_up: 0,
        target_forward: 0,
    }
}

#[test]
fn no_keys_no_motion() {
    let r = handle_input(&vec![], 512);
    assert_eq!(r.motion, still());
    assert!(!r.moved);
    assert!(!r.print);
    assert_eq!(r.depth, 512);
}

#[test]
fn pan_moves_origin_and_target() {
    let r = handle_input(&vec![Key::A], 512);
    assert_eq!(r.motion, Motion { origin_right: -1, target_right: -1, ..still() });
    assert!(r.moved);
    let r = handle_input(&vec![Key::R, Key::D], 512);
    assert_eq!(r.motion, Motion { origin_right: 1, target_right: 1, origin_up: 1, target_up: 1, ..still() });
    let r = handle_input(&vec![Key::A, Key::D], 512);
    assert_eq!(r.motion, still());
    assert!(r.moved);
}

#[test]
fn dolly_and_jump() {
    let r = handle_input(&vec![Key::W], 512);
    assert_eq!(r.motion, Motion { origin_forward: 1, ..still() });
    let r = handle_input(&vec![Key::S], 512);
    assert_eq!(r.motion, Motion { origin_forward: -1, ..still() });
    let r = handle_input(&vec![Key::E], 512);
    assert_eq!(r.motion, Motion { origin_forward: 100, target_forward: 100, ..still() });
    let r = handle_input(&vec![Key::Q, Key::W], 512);
    assert_eq!(r.motion, Motion { origin_forward: -99, target_forward: -100, ..still() });
}

#[test]
fn arrows_turn_the_target() {
    let r = handle_input(&vec![Key::Up], 512);
    assert_eq!(r.motion, Motion { target_up: -1, ..still() });
    let r = handle_input(&vec![Key::Down, Key::Right], 512);
    assert_eq!(r.motion, Motion { target_up: 1, target_right: 1, ..still() });
    let r = handle_input(&vec![Key::Left], 512);
    assert_eq!(r.motion, Motion { target_right: -1, ..still() });
    assert!(r.moved);
}

#[test]
fn h_toggles_the_budget_and_p_prints() {
    let r = handle_input(&vec![Key::H], 512);
    assert_eq!(r.depth, 2);
    assert!(r.moved);
    assert_eq!(handle_input(&vec![Key::H], 2).depth, 512);
    assert_eq!(handle_input(&vec![Key::H], 32).depth, 512);
    let r = handle_input(&vec![Key::P], 32);
    assert!(r.print);
    assert!(!r.moved);
    assert_eq!(r.depth, 32);
}
