use engine_2d::input::{Input, Key, MouseButton};

#[test]
fn fresh_input_holds_nothing() {
    let inp = Input::new();
    assert!(!inp.down(Key::A));
    assert!(!inp.pressed(Key::Space));
    assert!(!inp.mouse_down(MouseButton::Left));
    let d = Input::default();
    assert!(!d.released(Key::Escape));
}

#[test]
fn press_hold_release_cycle() {
    let mut inp = Input::new();
    inp.update(&[Key::W], [false; 3]);
    assert!(inp.down(Key::W));
    assert!(inp.pressed(Key::W));
    assert!(!inp.released(Key::W));

    inp.update(&[Key::W], [false; 3]);
    assert!(inp.down(Key::W));
    assert!(!inp.pressed(Key::W));

    inp.update(&[], [false; 3]);
    assert!(!inp.down(Key::W));
    assert!(inp.released(Key::W));
    assert!(!inp.pressed(Key::W));
}

#[test]
fn repeated_keys_count_once() {
    let mut inp = Input::new();
    inp.update(&[Key::A, Key::A, Key::D], [false; 3]);
    assert!(inp.down(Key::A) && inp.down(Key::D));
    assert!(!inp.down(Key::S));
}

#[test]
fn axis_from_four_keys() {
    let mut inp = Input::new();
    inp.update(&[Key::D, Key::W], [false; 3]);
    assert_eq!(inp.axis(Key::A, Key::D, Key::W, Key::S), (1, -1));
    inp.update(&[Key::A, Key::D, Key::S], [false; 3]);
    assert_eq!(inp.axis(Key::A, Key::D, Key::W, Key::S), (0, 1));
    inp.update(&[], [false; 3]);
    assert_eq!(inp.axis(Key::A, Key::D, Key::W, Key::S), (0, 0));
}

#[test]
fn mouse_buttons_edges() {
    let mut inp = Input::new();
    inp.update(&[], [true, false, true]);
    assert!(inp.mouse_down(MouseButton::Left));
    assert!(inp.mouse_pressed(MouseButton::Left));
    assert!(!inp.mouse_down(MouseButton::Right));
    assert!(inp.mouse_pressed(MouseButton::Middle));
    inp.update(&[], [false, false, true]);
    assert!(inp.mouse_released(MouseButton::Left));
    assert!(!inp.mouse_pressed(MouseButton::Middle));
    assert!(inp.mouse_down(MouseButton::Middle));
}

#[test]
fn pressed_among_keeps_candidate_order() {
    let mut inp = Input::new();
    inp.update(&[Key::S], [false; 3]);
    inp.update(&[Key::S, Key::W, Key::Space, Key::F12], [false; 3]);
    let got = inp.pressed_among(&[Key::Space, Key::A, Key::S, Key::W, Key::Up]);
    assert_eq!(got, vec![Key::Space, Key::W]);
    assert!(inp.pressed_among(&[]).is_empty());
}

#[test]
fn every_key_is_told_apart() {
    let all = [
        Key::A, Key::B, Key::C, Key::D, Key::E, Key::F, Key::G, Key::H, Key::I, Key::J, Key::K,
        Key::L, Key::M, Key::N, Key::O, Key::P, Key::Q, Key::R, Key::S, Key::T, Key::U, Key::V,
        Key::W, Key::X, Key::Y, Key::Z, Key::Key0, Key::Key1, Key::Key2, Key::Key3, Key::Key4,
        Key::Key5, Key::Key6, Key::Key7, Key::Key8, Key::Key9, Key::Up, Key::Down, Key::Left,
        Key::Right, Key::Space, Key::Enter, Key::Escape, Key::Backspace, Key::Tab, Key::LShift,
        Key::RShift, Key::LCtrl, Key::RCtrl, Key::LAlt, Key::RAlt, Key::F1, Key::F2, Key::F3,
        Key::F4, Key::F5, Key::F6, Key::F7, Key::F8, Key::F9, Key::F10, Key::F11, Key::F12,
    ];
    for k in all {
        let mut inp = Input::new();
        inp.update(&[k], [false; 3]);
        for j in all {
            assert_eq!(inp.down(j), j == k);
        }
    }
}
