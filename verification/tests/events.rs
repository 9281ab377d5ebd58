use molasses::buffers::{resized_capacity, storage_needs_growth, writable_len};
use molasses::events::{
    field_ready, handle_window_input, is_game_tick, App, AppPhase, ButtonState, MouseButton, StagingState,
    SurfaceSize, TouchPhase, WindowInput,
};

#[test]
fn app_starts_once() {
    let mut app = App::new();
    assert!(!app.engine_polled(true));
    assert!(app.resumed());
    assert_eq!(app.phase, AppPhase::Initializing);
    assert!(!app.resumed());
    assert!(!app.engine_polled(false));
    assert!(app.engine_polled(true));
    assert_eq!(app.phase, AppPhase::Active);
    assert!(!app.resumed());
    assert_eq!(app.phase, AppPhase::Active);
}

#[test]
fn buttons_set_the_pointer_force() {
    let press = |button| WindowInput::MouseInput { state: ButtonState::Pressed, button };
    let release = |button| WindowInput::MouseInput { state: ButtonState::Released, button };
    assert_eq!(handle_window_input(0, false, press(MouseButton::Left)).mouse_state, -1);
    assert_eq!(handle_window_input(0, false, press(MouseButton::Right)).mouse_state, 1);
    assert_eq!(handle_window_input(1, false, release(MouseButton::Left)).mouse_state, 0);
    assert_eq!(handle_window_input(-1, false, release(MouseButton::Right)).mouse_state, 0);
    assert_eq!(handle_window_input(1, false, press(MouseButton::Other)).mouse_state, 1);
    assert_eq!(handle_window_input(-1, false, WindowInput::CursorMoved).mouse_state, -1);
}

#[test]
fn touches_attract_and_follow() {
    let r = handle_window_input(0, false, WindowInput::Touch(TouchPhase::Started));
    assert_eq!((r.mouse_state, r.follow_pointer), (-1, true));
    let r = handle_window_input(-1, false, WindowInput::Touch(TouchPhase::Cancelled));
    assert_eq!((r.mouse_state, r.follow_pointer), (0, false));
}

#[test]
fn window_requests() {
    assert!(handle_window_input(0, false, WindowInput::RedrawRequested).redraw);
    assert!(handle_window_input(0, false, WindowInput::CloseRequested).exit);
    assert!(handle_window_input(0, false, WindowInput::Keyboard { shift_held: true, escape_just_pressed: true }).exit);
    assert!(!handle_window_input(0, false, WindowInput::Keyboard { shift_held: false, escape_just_pressed: true }).exit);
    assert_eq!(
        handle_window_input(0, false, WindowInput::Resized { width: 640, height: 480 }).resize,
        Some(SurfaceSize { width: 640, height: 480 })
    );
    let r = handle_window_input(0, false, WindowInput::Other);
    assert!(!r.redraw && !r.exit && !r.follow_pointer && r.resize.is_none());
}

#[test]
fn staging_buffer_is_mapped_once_at_a_time() {
    let mut s = StagingState::new();
    assert!(!s.begin_frame());
    assert!(s.end_frame());
    // the map has not completed yet
    assert!(!s.begin_frame());
    assert!(!s.end_frame());
    s.map_completed();
    assert!(s.begin_frame());
    assert!(s.end_frame());
    assert!(!s.map_done);
}

#[test]
fn frame_counters() {
    assert!(!field_ready(10));
    assert!(field_ready(11));
    assert!(is_game_tick(16));
    assert!(!is_game_tick(17));
}

#[test]
fn buffer_sizes() {
    assert_eq!(resized_capacity(10, 5, 1000, 4), None);
    assert_eq!(resized_capacity(10, 20, 1000, 4), Some(20));
    assert_eq!(resized_capacity(10, 500, 1000, 4), Some(250));
    assert_eq!(writable_len(4, 10), 4);
    assert_eq!(writable_len(4, 3), 3);
    assert!(storage_needs_growth(4, 5));
    assert!(!storage_needs_growth(4, 4));
}

#[test]
fn inputs_taken_by_the_ui_change_nothing() {
    let inputs = [
        WindowInput::RedrawRequested,
        WindowInput::CloseRequested,
        WindowInput::MouseInput { state: ButtonState::Pressed, button: MouseButton::Left },
        WindowInput::CursorMoved,
        WindowInput::Touch(TouchPhase::Started),
        WindowInput::Keyboard { shift_held: true, escape_just_pressed: true },
        WindowInput::Resized { width: 10, height: 20 },
    ];
    for input in inputs {
        let r = handle_window_input(1, true, input);
        assert!(!r.redraw && !r.exit && !r.follow_pointer && r.resize.is_none());
        assert_eq!(r.mouse_state, 1);
    }
}

#[test]
fn shrinking_needs_no_element_size() {
    assert_eq!(resized_capacity(10, 5, 1000, 0), None);
}
