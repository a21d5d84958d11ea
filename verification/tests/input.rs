use screen_streamer::input::{
    global_to_bind, inject, modifier_bit, plan_devices, release_requests, wheel_to_axis,
    wheel_to_discrete, DevicePlan, HeldState, Injection, Interface, KeyAction, NoControl, MOD_ALT,
    MOD_ALTGR, MOD_CTRL, MOD_LOCK, MOD_LOGO, MOD_NUM, MOD_SHIFT,
};
use screen_streamer::protocol::{InputEvent, MouseButton};

fn fwd(mods: Option<(u32, u32)>) -> KeyAction {
    KeyAction::Forward(mods)
}

#[test]
fn plain_keys_forward_without_modifier_updates() {
    let mut s = HeldState::default();
    assert_eq!(s.key(30, true), fwd(None));
    assert_eq!(s.key(30, false), fwd(None));
}

#[test]
fn shift_sets_and_clears_its_bit() {
    let mut s = HeldState::default();
    assert_eq!(s.key(42, true), fwd(Some((MOD_SHIFT, 0))));
    assert_eq!(s.key(42, false), fwd(Some((0, 0))));
}

#[test]
fn left_and_right_shift_overlap() {
    let mut s = HeldState::default();
    assert_eq!(s.key(42, true), fwd(Some((MOD_SHIFT, 0))));
    assert_eq!(s.key(54, true), fwd(None), "already shifted");
    assert_eq!(s.key(42, false), fwd(None), "right shift still held");
    assert_eq!(s.key(54, false), fwd(Some((0, 0))));
}

#[test]
fn left_alt_and_altgr_are_distinct() {
    let mut s = HeldState::default();
    assert_eq!(s.key(56, true), fwd(Some((MOD_ALT, 0))));
    assert_eq!(s.key(100, true), fwd(Some((MOD_ALT | MOD_ALTGR, 0))));
}

#[test]
fn caps_lock_toggles_on_press_only_and_survives_release_all() {
    let mut s = HeldState::default();
    assert_eq!(s.key(58, true), fwd(Some((0, MOD_LOCK))));
    assert_eq!(s.key(58, true), KeyAction::Drop, "autorepeat");
    assert_eq!(s.key(58, false), fwd(None));
    assert_eq!(s.key(58, true), fwd(Some((0, 0))));
    s.key(58, false);
    s.key(69, true);
    s.release_all();
    assert_eq!(s.locked(), MOD_NUM);
}

#[test]
fn release_of_an_unheld_key_is_dropped() {
    assert_eq!(HeldState::default().key(30, false), KeyAction::Drop);
}

#[test]
fn invalid_codes_are_dropped() {
    let mut s = HeldState::default();
    assert_eq!(s.key(0, true), KeyAction::Drop);
    assert_eq!(s.key(0x300, true), KeyAction::Drop);
    assert_eq!(s.key(0x2ff, true), fwd(None));
}

#[test]
fn button_redundancy() {
    let mut s = HeldState::default();
    assert!(s.button(0x110, true));
    assert!(!s.button(0x110, true));
    assert!(s.button(0x110, false));
    assert!(!s.button(0x110, false));
}

#[test]
fn release_all_drains_and_clears_modifiers() {
    let mut s = HeldState::default();
    s.key(42, true);
    s.key(30, true);
    s.button(0x111, true);
    assert_eq!(s.release_all(), (vec![30, 42], vec![0x111]));
    assert_eq!(s.depressed(), 0);
    assert_eq!(s.release_all(), (vec![], vec![]));
}

#[test]
fn wheel_conversion() {
    assert_eq!(wheel_to_axis(100) as f64 / 100.0, 15.0);
    assert_eq!(wheel_to_axis(-100) as f64 / 100.0, -15.0);
    assert_eq!(wheel_to_discrete(0), 0);
    assert_eq!(wheel_to_discrete(100), 1);
    assert_eq!(wheel_to_discrete(-250), -3, "round half away from zero");
    assert_eq!(wheel_to_discrete(30), 1);
    assert_eq!(wheel_to_discrete(-4), -1);
}

#[test]
fn a_press_and_its_release_leave_nothing_held() {
    let mut held = HeldState::default();
    let press = inject(&mut held, InputEvent::Key { code: 42, pressed: true }, true);
    assert!(!press.is_empty());
    assert_eq!(held.depressed(), MOD_SHIFT);
    let release = inject(&mut held, InputEvent::Key { code: 42, pressed: false }, true);
    assert!(!release.is_empty());
    assert_eq!(held.depressed(), 0);
    assert!(release_requests(&mut held, true).is_empty());
}

#[test]
fn keys_are_not_injected_without_a_keyboard() {
    let mut held = HeldState::default();
    assert!(inject(&mut held, InputEvent::Key { code: 30, pressed: true }, false).is_empty());
}

#[test]
fn held_buttons_are_released_at_the_end() {
    let mut held = HeldState::default();
    let event = InputEvent::PointerButton { button: MouseButton::Left, pressed: true };
    let requests = inject(&mut held, event, false);
    assert!(requests
        .iter()
        .any(|r| matches!(r, Injection::Button { code: 0x110, pressed: true })));
    let released = release_requests(&mut held, false);
    assert!(released
        .iter()
        .any(|r| matches!(r, Injection::Button { code: 0x110, pressed: false })));
    assert!(release_requests(&mut held, false).is_empty());
}

#[test]
fn globals_are_bound_at_the_version_that_is_spoken() {
    assert_eq!(global_to_bind("wl_seat", 9, false, false), Some((Interface::Seat, 7)));
    assert_eq!(global_to_bind("wl_seat", 5, false, true), Some((Interface::Seat, 5)));
    assert_eq!(global_to_bind("wl_seat", 9, true, false), None);
    assert_eq!(global_to_bind("wl_output", 4, true, false), Some((Interface::Output, 1)));
    assert_eq!(global_to_bind("wl_output", 4, false, true), None);
    assert_eq!(
        global_to_bind("zwlr_virtual_pointer_manager_v1", 3, true, true),
        Some((Interface::PointerManager, 2))
    );
    assert_eq!(
        global_to_bind("zwp_virtual_keyboard_manager_v1", 1, true, true),
        Some((Interface::KeyboardManager, 1))
    );
    assert_eq!(global_to_bind("wl_compositor", 5, false, false), None);
}

#[test]
fn remote_control_needs_a_seat_an_output_and_a_pointer() {
    assert_eq!(plan_devices(false, true, Some(2), true, true), Err(NoControl::NoSeat));
    assert_eq!(plan_devices(true, false, Some(2), true, true), Err(NoControl::NoOutput));
    assert_eq!(plan_devices(true, true, None, true, true), Err(NoControl::NoPointerManager));
    assert_eq!(
        plan_devices(true, true, Some(2), true, false),
        Ok(DevicePlan { bound_to_output: true, keyboard: false })
    );
    assert_eq!(
        plan_devices(true, true, Some(1), true, true),
        Ok(DevicePlan { bound_to_output: false, keyboard: true })
    );
}

#[test]
fn motion_and_scrolling_end_with_a_frame() {
    let mut held = HeldState::default();
    assert_eq!(
        inject(&mut held, InputEvent::PointerMotion { x: 7, y: 9 }, true),
        [Injection::Motion { x: 7, y: 9 }, Injection::Frame]
    );
    assert_eq!(
        inject(&mut held, InputEvent::PointerAxis { dx: 0, dy: 100 }, true),
        [
            Injection::WheelSource,
            Injection::Scroll { vertical: true, hundredths: 1500, steps: 1 },
            Injection::Frame
        ]
    );
}

#[test]
fn keys_stand_for_their_modifiers() {
    let bits = [42, 54, 29, 97, 56, 100, 125, 126, 58, 30].map(modifier_bit);
    assert_eq!(
        bits,
        [
            MOD_SHIFT, MOD_SHIFT, MOD_CTRL, MOD_CTRL, MOD_ALT, MOD_ALTGR, MOD_LOGO, MOD_LOGO, 0, 0
        ]
    );
}
