use vstd::prelude::*;

verus! {

/// Where the application is in starting up.
#[derive(PartialEq, Eq, Structural, Clone, Copy, Debug)]
pub enum AppPhase {
    /// No window yet.
    Idle,
    /// The window exists and the engine is loading.
    Initializing,
    /// The engine runs.
    Active,
}

/// The application's start-up state.
pub struct App {
    pub phase: AppPhase,
}

impl App {
    pub fn new() -> (app: Self)
        ensures
            app.phase == AppPhase::Idle,
    {
        App { phase: AppPhase::Idle }
    }

    /// The platform resumed the application. A window is created and the
    /// engine starts loading only the first time; the answer says whether
    /// to do so.
    pub fn resumed(&mut self) -> (start: bool)
        ensures
            start == (old(self).phase == AppPhase::Idle),
            final(self).phase == if start { AppPhase::Initializing } else { old(self).phase },
    {
        match self.phase {
            AppPhase::Idle => {
                self.phase = AppPhase::Initializing;
                true
            },
            _ => false,
        }
    }

    /// The loading engine was polled; `ready` tells whether it finished.
    /// Returns whether the engine just became active (it then fits its
    /// surface to the window and asks for a frame).
    pub fn engine_polled(&mut self, ready: bool) -> (activated: bool)
        ensures
            activated == (old(self).phase == AppPhase::Initializing && ready),
            final(self).phase == if activated { AppPhase::Active } else { old(self).phase },
    {
        if self.phase == AppPhase::Initializing && ready {
            self.phase = AppPhase::Active;
            true
        } else {
            false
        }
    }
}

#[derive(PartialEq, Eq, Structural, Clone, Copy, Debug)]
pub enum ButtonState {
    Pressed,
    Released,
}

#[derive(PartialEq, Eq, Structural, Clone, Copy, Debug)]
pub enum MouseButton {
    Left,
    Right,
    Other,
}

#[derive(PartialEq, Eq, Structural, Clone, Copy, Debug)]
pub enum TouchPhase {
    Started,
    Moved,
    Ended,
    Cancelled,
}

/// What the window reported, as far as the simulation cares.
#[derive(PartialEq, Eq, Structural, Clone, Copy, Debug)]
pub enum WindowInput {
    RedrawRequested,
    CloseRequested,
    MouseInput { state: ButtonState, button: MouseButton },
    CursorMoved,
    Touch(TouchPhase),
    /// A key changed; the flags are read after the key state was updated.
    Keyboard { shift_held: bool, escape_just_pressed: bool },
    Resized { width: u32, height: u32 },
    Other,
}

/// Pull particles towards the pointer.
pub const MOUSE_ATTRACT: i32 = -1;

/// Push particles away from the pointer.
pub const MOUSE_REPEL: i32 = 1;

/// The pointer exerts no force.
pub const MOUSE_IDLE: i32 = 0;

/// Size of the drawing surface, in physical pixels.
#[derive(PartialEq, Eq, Structural, Clone, Copy, Debug)]
pub struct SurfaceSize {
    pub width: u32,
    pub height: u32,
}

/// What the engine does about one window input.
#[derive(PartialEq, Eq, Structural, Clone, Copy, Debug)]
pub struct Response {
    /// Run a frame.
    pub redraw: bool,
    /// Leave the event loop.
    pub exit: bool,
    /// The pointer force from now on.
    pub mouse_state: i32,
    /// Move the force's centre to the pointer.
    pub follow_pointer: bool,
    /// Fit the surface to this size.
    pub resize: Option<SurfaceSize>,
}

/// The pointer force after `input`: the left button (or a touch) attracts,
/// the right button repels, releasing either (or lifting the touch) stops;
/// anything else keeps `mouse_state`.
pub open spec fn mouse_state_after(mouse_state: i32, input: WindowInput) -> i32 {
    match input {
        (WindowInput::MouseInput { state: ButtonState::Pressed, button: MouseButton::Left }) => MOUSE_ATTRACT,
        (WindowInput::MouseInput { state: ButtonState::Pressed, button: MouseButton::Right }) => MOUSE_REPEL,
        (WindowInput::MouseInput { state: ButtonState::Released, button: MouseButton::Left }) => MOUSE_IDLE,
        (WindowInput::MouseInput { state: ButtonState::Released, button: MouseButton::Right }) => MOUSE_IDLE,
        WindowInput::Touch(TouchPhase::Started) => MOUSE_ATTRACT,
        WindowInput::Touch(TouchPhase::Moved) => MOUSE_ATTRACT,
        WindowInput::Touch(TouchPhase::Ended) => MOUSE_IDLE,
        WindowInput::Touch(TouchPhase::Cancelled) => MOUSE_IDLE,
        _ => mouse_state,
    }
}

/// Nothing happens: no frame, no exit, the pointer force kept, no resize.
pub open spec fn no_response(mouse_state: i32) -> Response {
    Response { redraw: false, exit: false, mouse_state, follow_pointer: false, resize: None }
}

/// Decides what a running engine does about one window input, given the
/// current pointer force. An input the user interface took
/// (`taken_by_ui`) is left to it: nothing happens. Otherwise closing the
/// window, or Escape pressed while Shift is held, exits.
pub fn handle_window_input(mouse_state: i32, taken_by_ui: bool, input: WindowInput) -> (r: Response)
    ensures
        taken_by_ui ==> r == no_response(mouse_state),
        !taken_by_ui ==> {
            &&& r.redraw == (input == WindowInput::RedrawRequested)
            &&& r.exit == match input {
                WindowInput::CloseRequested => true,
                WindowInput::Keyboard { shift_held, escape_just_pressed } => shift_held && escape_just_pressed,
                _ => false,
            }
            &&& r.mouse_state == mouse_state_after(mouse_state, input)
            &&& r.follow_pointer == match input {
                WindowInput::CursorMoved => true,
                WindowInput::Touch(TouchPhase::Started) => true,
                WindowInput::Touch(TouchPhase::Moved) => true,
                _ => false,
            }
            &&& r.resize == match input {
                WindowInput::Resized { width, height } => Some(SurfaceSize { width, height }),
                _ => None::<SurfaceSize>,
            }
        },
        !taken_by_ui && (input == WindowInput::Touch(TouchPhase::Ended) || input == WindowInput::Touch(
            TouchPhase::Cancelled,
        ) || input == (WindowInput::MouseInput { state: ButtonState::Released, button: MouseButton::Left })
            || input == (WindowInput::MouseInput { state: ButtonState::Released, button: MouseButton::Right }))
            ==> r.mouse_state == MOUSE_IDLE,
        !taken_by_ui && (input == WindowInput::Touch(TouchPhase::Started) || input == WindowInput::Touch(
            TouchPhase::Moved,
        ) || input == (WindowInput::MouseInput { state: ButtonState::Pressed, button: MouseButton::Left }))
            ==> r.mouse_state == MOUSE_ATTRACT,
        !taken_by_ui && input == (WindowInput::MouseInput { state: ButtonState::Pressed, button: MouseButton::Right })
            ==> r.mouse_state == MOUSE_REPEL,
        !((input is MouseInput) || (input is Touch)) ==> r.mouse_state == mouse_state,
{
    let mut r = Response { redraw: false, exit: false, mouse_state, follow_pointer: false, resize: None };
    if taken_by_ui {
        return r;
    }
    match input {
        WindowInput::RedrawRequested => {
            r.redraw = true;
        },
        WindowInput::CloseRequested => {
            r.exit = true;
        },
        WindowInput::MouseInput { state, button } => {
            match (state, button) {
                (ButtonState::Pressed, MouseButton::Left) => r.mouse_state = MOUSE_ATTRACT,
                (ButtonState::Pressed, MouseButton::Right) => r.mouse_state = MOUSE_REPEL,
                (ButtonState::Released, MouseButton::Left) => r.mouse_state = MOUSE_IDLE,
                (ButtonState::Released, MouseButton::Right) => r.mouse_state = MOUSE_IDLE,
                _ => {},
            }
        },
        WindowInput::CursorMoved => {
            r.follow_pointer = true;
        },
        WindowInput::Touch(phase) => {
            match phase {
                TouchPhase::Started | TouchPhase::Moved => {
                    r.follow_pointer = true;
                    r.mouse_state = MOUSE_ATTRACT;
                },
                TouchPhase::Ended | TouchPhase::Cancelled => {
                    r.mouse_state = MOUSE_IDLE;
                },
            }
        },
        WindowInput::Keyboard { shift_held, escape_just_pressed } => {
            r.exit = shift_held && escape_just_pressed;
        },
        WindowInput::Resized { width, height } => {
            r.resize = Some(SurfaceSize { width, height });
        },
        WindowInput::Other => {},
    }
    r
}


/// Lifting the finger, cancelling the touch, or releasing either mouse
/// button stops the pointer force, whatever it was before.
pub proof fn release_stops_pointer_force(m: i32)
    ensures
        mouse_state_after(m, WindowInput::Touch(TouchPhase::Ended)) == 0,
        mouse_state_after(m, WindowInput::Touch(TouchPhase::Cancelled)) == 0,
        mouse_state_after(m, (WindowInput::MouseInput { state: ButtonState::Released, button: MouseButton::Left }))
            == 0,
        mouse_state_after(m, (WindowInput::MouseInput { state: ButtonState::Released, button: MouseButton::Right }))
            == 0,
{
}

/// Touching the screen or pressing the left button pulls particles towards
/// the pointer, and pressing the right button pushes them away, whatever the
/// force was before.
pub proof fn press_sets_pointer_force(m: i32)
    ensures
        mouse_state_after(m, WindowInput::Touch(TouchPhase::Started)) == -1,
        mouse_state_after(m, WindowInput::Touch(TouchPhase::Moved)) == -1,
        mouse_state_after(m, (WindowInput::MouseInput { state: ButtonState::Pressed, button: MouseButton::Left }))
            == -1,
        mouse_state_after(m, (WindowInput::MouseInput { state: ButtonState::Pressed, button: MouseButton::Right }))
            == 1,
{
}

/// Inputs that are neither a mouse button nor a touch leave the pointer
/// force as it was; so does any input the user interface takes.
pub proof fn other_inputs_keep_pointer_force(m: i32, input: WindowInput)
    ensures
        !((input is MouseInput) || (input is Touch)) ==> mouse_state_after(m, input) == m,
        no_response(m).mouse_state == m,
{
}

/// The staging buffer through which the object mask comes back from the GPU.
pub struct StagingState {
    /// A map of the buffer was requested and it has not been unmapped since.
    pub mapped: bool,
    /// The requested map has completed.
    pub map_done: bool,
}

impl StagingState {
    pub fn new() -> (s: Self)
        ensures
            !s.mapped,
            !s.map_done,
    {
        StagingState { mapped: false, map_done: false }
    }

    /// Start of a frame: whether the buffer may be read now. Reading unmaps
    /// it.
    pub fn begin_frame(&mut self) -> (read: bool)
        ensures
            read == old(self).map_done,
            final(self).map_done == old(self).map_done,
            final(self).mapped == (old(self).mapped && !read),
    {
        if self.map_done {
            self.mapped = false;
            true
        } else {
            false
        }
    }

    /// End of a frame: whether to request a new map. One is requested only
    /// when none is in flight.
    pub fn end_frame(&mut self) -> (request: bool)
        ensures
            request == !old(self).mapped,
            final(self).mapped,
            final(self).map_done == (old(self).map_done && !request),
    {
        if !self.mapped {
            self.map_done = false;
            self.mapped = true;
            true
        } else {
            false
        }
    }

    /// The requested map completed.
    pub fn map_completed(&mut self)
        ensures
            final(self).mapped == old(self).mapped,
            final(self).map_done,
    {
        self.map_done = true;
    }
}

/// Frames after which the distance field computed from the objects is fed
/// to the simulation.
pub const FIELD_WARMUP_TICKS: u32 = 10;

/// Whether the simulation has run long enough to take the object field.
pub fn field_ready(tick: u32) -> (ready: bool)
    ensures
        ready == (tick > FIELD_WARMUP_TICKS),
{
    tick > FIELD_WARMUP_TICKS
}

/// The game advances on every eighth simulation tick.
pub fn is_game_tick(tick: u32) -> (step: bool)
    ensures
        step == (tick % 8 == 0),
{
    tick % 8 == 0
}

} // verus!
