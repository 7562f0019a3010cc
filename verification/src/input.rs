//! Cursor capture: what the cameras ask of the cursor, and the state machine
//! that grabs and releases the window's cursor accordingly.

use vstd::prelude::*;
use std::collections::HashSet;

verus! {

/// What a camera controller asks of the cursor for the current frame.
#[derive(Debug, Copy, Clone, PartialEq, Eq, Structural)]
pub enum CursorCaptureRequest {
    Free,
    LockedAndHidden,
}

/// The cursor's capture state; a locked cursor remembers the position to
/// put the cursor back to when it is freed.
#[derive(Debug, Clone, Copy, PartialEq, Eq, Structural)]
pub enum WindowCursorCapture<P> {
    Free,
    LockedAndHidden(P),
}

/// The capture state a controller's request asks for: a locked cursor
/// remembers where the cursor was when the request was made.
pub fn capture_request_at<P>(request: CursorCaptureRequest, position: P) -> (r:
    WindowCursorCapture<P>)
    ensures
        r == (match request {
            CursorCaptureRequest::Free => WindowCursorCapture::Free,
            CursorCaptureRequest::LockedAndHidden => WindowCursorCapture::LockedAndHidden(position),
        }),
{
    match request {
        CursorCaptureRequest::Free => WindowCursorCapture::Free,
        CursorCaptureRequest::LockedAndHidden => WindowCursorCapture::LockedAndHidden(position),
    }
}

/// What the window has to do to follow a change of capture state.
#[derive(Debug, Clone, Copy, PartialEq, Eq, Structural)]
pub enum CursorAction<P> {
    /// Nothing changes.
    Keep,
    /// Ungrab the cursor, show it, and move it back to the given position.
    Release(P),
    /// Grab the cursor (confined, or else locked) and hide it.
    Capture,
}

/// The window action for going from `current` to `request`.
pub open spec fn capture_action<P>(current: WindowCursorCapture<P>, request: WindowCursorCapture<
    P,
>) -> CursorAction<P> {
    match (current, request) {
        (WindowCursorCapture::LockedAndHidden(position), WindowCursorCapture::Free) => {
            CursorAction::Release(position)
        },
        (WindowCursorCapture::Free, WindowCursorCapture::LockedAndHidden(_)) => {
            CursorAction::Capture
        },
        _ => CursorAction::Keep,
    }
}

impl<P: Copy> WindowCursorCapture<P> {
    /// Moves to the requested state and returns what the window has to do:
    /// release (restoring the cursor position saved when it was locked) when a
    /// locked cursor is freed, capture when a free cursor is locked, nothing
    /// otherwise.
    pub fn update(&mut self, request: WindowCursorCapture<P>) -> (action: CursorAction<P>)
        ensures
            *final(self) == request,
            action == capture_action(*old(self), request),
    {
        let action = match (*self, request) {
            (WindowCursorCapture::LockedAndHidden(position), WindowCursorCapture::Free) => {
                CursorAction::Release(position)
            },
            (WindowCursorCapture::Free, WindowCursorCapture::LockedAndHidden(_)) => {
                CursorAction::Capture
            },
            _ => CursorAction::Keep,
        };
        *self = request;
        action
    }
}

/// Asking again for the state the cursor is already in asks nothing of the
/// window: after an update, the same request is a no-op.
pub proof fn lemma_repeated_request_keeps<P>(request: WindowCursorCapture<P>)
    ensures
        capture_action(request, request) == CursorAction::<P>::Keep,
{
}

// ---------------------------------------------------------------------------
// Collecting a window's button and key input between frames
// ---------------------------------------------------------------------------

/// Whether a button or key went down or up.
#[derive(Debug, Clone, Copy, PartialEq, Eq, Structural)]
pub enum ElementState {
    Pressed,
    Released,
}

/// A press or release of the mouse button with the given code.
#[derive(Debug, Clone, Copy, PartialEq, Eq, Structural)]
pub struct MouseInput {
    pub state: ElementState,
    pub button: u32,
}

/// A press or release of a key: its physical key code and the logical key
/// (the text that names it) under the current layout.
#[derive(Debug, Clone, PartialEq, Eq)]
pub struct KeyInput {
    pub state: ElementState,
    pub physical_key: u32,
    pub logical_key: String,
}

/// Some input of `inputs` is the given state change of the given button.
pub open spec fn has_mouse_input(inputs: Seq<MouseInput>, state: ElementState, button: u32) -> bool {
    exists|i: int| 0 <= i < inputs.len() && inputs[i] == (MouseInput { state, button })
}

/// Some input of `inputs` is the given state change of the given physical key.
pub open spec fn has_key_input(inputs: Seq<KeyInput>, state: ElementState, key: u32) -> bool {
    exists|i: int|
        0 <= i < inputs.len() && #[trigger] inputs[i].state == state && inputs[i].physical_key
            == key
}

/// Some input of `inputs` is the given state change of the given logical key.
pub open spec fn has_logical_input(inputs: Seq<KeyInput>, state: ElementState, key: Seq<char>) -> bool {
    exists|i: int|
        0 <= i < inputs.len() && #[trigger] inputs[i].state == state && inputs[i].logical_key@
            == key
}

/// The held buttons or keys after one more input: a press adds the button, a
/// release removes it.
pub open spec fn held_after<K>(held: Set<K>, state: ElementState, code: K) -> Set<K> {
    match state {
        ElementState::Pressed => held.insert(code),
        ElementState::Released => held.remove(code),
    }
}

/// The keys of a list of held logical keys, as a set.
pub open spec fn logical_set(keys: Seq<String>) -> Set<Seq<char>> {
    Set::new(|k: Seq<char>| exists|i: int| 0 <= i < keys.len() && #[trigger] keys[i]@ == k)
}

/// A recorded press or release is seen by the frame that hands it out: the
/// frame's inputs hold it, and the button is held afterwards exactly when it
/// was a press.
pub proof fn lemma_recorded_input_is_seen(
    inputs: Seq<MouseInput>,
    held: Set<u32>,
    state: ElementState,
    button: u32,
)
    ensures
        has_mouse_input(inputs.push((MouseInput { state, button })), state, button),
        held_after(held, state, button).contains(button) == (state == ElementState::Pressed),
{
    let pushed = inputs.push((MouseInput { state, button }));
    assert(pushed[inputs.len() as int] == (MouseInput { state, button }));
}

fn any_mouse_input(inputs: &Vec<MouseInput>, state: ElementState, button: u32) -> (b: bool)
    ensures
        b == has_mouse_input(inputs@, state, button),
{
    let mut k: usize = 0;
    while k < inputs.len()
        invariant
            k <= inputs.len(),
            forall|i: int| 0 <= i < k ==> inputs@[i] != (MouseInput { state, button }),
        decreases inputs.len() - k,
    {
        if inputs[k].state == state && inputs[k].button == button {
            return true;
        }
        k = k + 1;
    }
    false
}

fn any_key_input(inputs: &Vec<KeyInput>, state: ElementState, key: u32) -> (b: bool)
    ensures
        b == has_key_input(inputs@, state, key),
{
    let mut k: usize = 0;
    while k < inputs.len()
        invariant
            k <= inputs.len(),
            forall|i: int|
                0 <= i < k ==> !(#[trigger] inputs@[i].state == state && inputs@[i].physical_key
                    == key),
        decreases inputs.len() - k,
    {
        if inputs[k].state == state && inputs[k].physical_key == key {
            return true;
        }
        k = k + 1;
    }
    false
}

fn any_logical_input(inputs: &Vec<KeyInput>, state: ElementState, key: &String) -> (b: bool)
    ensures
        b == has_logical_input(inputs@, state, key@),
{
    let mut k: usize = 0;
    while k < inputs.len()
        invariant
            k <= inputs.len(),
            forall|i: int|
                0 <= i < k ==> !(#[trigger] inputs@[i].state == state && inputs@[i].logical_key@
                    == key@),
        decreases inputs.len() - k,
    {
        if inputs[k].state == state && inputs[k].logical_key == *key {
            return true;
        }
        k = k + 1;
    }
    false
}

fn contains_key(keys: &Vec<String>, key: &String) -> (b: bool)
    ensures
        b == logical_set(keys@).contains(key@),
{
    let mut k: usize = 0;
    while k < keys.len()
        invariant
            k <= keys.len(),
            forall|i: int| 0 <= i < k ==> (#[trigger] keys@[i])@ != key@,
        decreases keys.len() - k,
    {
        if keys[k] == *key {
            return true;
        }
        k = k + 1;
    }
    false
}

/// The mouse input of one frame: the presses and releases in order, and the
/// buttons held at the frame's end.
pub struct WindowMouseInputs {
    pub inputs: Vec<MouseInput>,
    pub held: HashSet<u32>,
}

impl WindowMouseInputs {
    /// The button is held down.
    pub fn pressed(&self, button: u32) -> (b: bool)
        ensures
            b == self.held@.contains(button),
    {
        self.held.contains(&button)
    }

    /// The button went down during the frame.
    pub fn just_pressed(&self, button: u32) -> (b: bool)
        ensures
            b == has_mouse_input(self.inputs@, ElementState::Pressed, button),
    {
        any_mouse_input(&self.inputs, ElementState::Pressed, button)
    }

    /// The button went up during the frame.
    pub fn just_released(&self, button: u32) -> (b: bool)
        ensures
            b == has_mouse_input(self.inputs@, ElementState::Released, button),
    {
        any_mouse_input(&self.inputs, ElementState::Released, button)
    }
}

/// The keyboard input of one frame: the presses and releases in order, and
/// the keys held at the frame's end, by physical key code and by logical key.
pub struct WindowKeyboardInputs {
    pub inputs: Vec<KeyInput>,
    pub physical_held: HashSet<u32>,
    pub logical_held: Vec<String>,
}

impl WindowKeyboardInputs {
    /// The logical key is held down.
    pub fn pressed_logical(&self, key: &String) -> (b: bool)
        ensures
            b == logical_set(self.logical_held@).contains(key@),
    {
        contains_key(&self.logical_held, key)
    }

    /// The logical key went down during the frame.
    pub fn just_pressed_logical(&self, key: &String) -> (b: bool)
        ensures
            b == has_logical_input(self.inputs@, ElementState::Pressed, key@),
    {
        any_logical_input(&self.inputs, ElementState::Pressed, key)
    }

    /// The logical key went up during the frame.
    pub fn just_released_logical(&self, key: &String) -> (b: bool)
        ensures
            b == has_logical_input(self.inputs@, ElementState::Released, key@),
    {
        any_logical_input(&self.inputs, ElementState::Released, key)
    }

    /// The key is held down.
    pub fn pressed_physical(&self, key: u32) -> (b: bool)
        ensures
            b == self.physical_held@.contains(key),
    {
        self.physical_held.contains(&key)
    }

    /// The key went down during the frame.
    pub fn just_pressed_physical(&self, key: u32) -> (b: bool)
        ensures
            b == has_key_input(self.inputs@, ElementState::Pressed, key),
    {
        any_key_input(&self.inputs, ElementState::Pressed, key)
    }

    /// The key went up during the frame.
    pub fn just_released_physical(&self, key: u32) -> (b: bool)
        ensures
            b == has_key_input(self.inputs@, ElementState::Released, key),
    {
        any_key_input(&self.inputs, ElementState::Released, key)
    }
}

/// What a collector holds, and what one frame's input hands out: the button
/// and key events in order, what is held, and the window's new size if it
/// was resized.
pub struct InputState {
    pub mouse_inputs: Seq<MouseInput>,
    pub mouse_held: Set<u32>,
    pub key_inputs: Seq<KeyInput>,
    pub physical_held: Set<u32>,
    pub logical_held: Set<Seq<char>>,
    pub new_size: Option<(u32, u32)>,
}

/// One frame's input: mouse, keyboard, and the window's new size if it was
/// resized during the frame.
pub struct WindowInputs {
    pub mouse: WindowMouseInputs,
    pub keyboard: WindowKeyboardInputs,
    pub new_size: Option<(u32, u32)>,
}

impl View for WindowInputs {
    type V = InputState;

    open spec fn view(&self) -> InputState {
        InputState {
            mouse_inputs: self.mouse.inputs@,
            mouse_held: self.mouse.held@,
            key_inputs: self.keyboard.inputs@,
            physical_held: self.keyboard.physical_held@,
            logical_held: logical_set(self.keyboard.logical_held@),
            new_size: self.new_size,
        }
    }
}

/// Collects a window's button, key and resize events between two frames.
pub struct WindowInputCollector {
    pub mouse_inputs: Vec<MouseInput>,
    pub mouse_held: HashSet<u32>,
    pub key_inputs: Vec<KeyInput>,
    pub physical_key_held: HashSet<u32>,
    pub key_held: Vec<String>,
    pub new_size: Option<(u32, u32)>,
}

impl View for WindowInputCollector {
    type V = InputState;

    open spec fn view(&self) -> InputState {
        InputState {
            mouse_inputs: self.mouse_inputs@,
            mouse_held: self.mouse_held@,
            key_inputs: self.key_inputs@,
            physical_held: self.physical_key_held@,
            logical_held: logical_set(self.key_held@),
            new_size: self.new_size,
        }
    }
}

/// The collector after a frame is handed out: no events, the same held
/// buttons and keys, no pending resize.
pub open spec fn after_step(s: InputState) -> InputState {
    InputState {
        mouse_inputs: Seq::empty(),
        mouse_held: s.mouse_held,
        key_inputs: Seq::empty(),
        physical_held: s.physical_held,
        logical_held: s.logical_held,
        new_size: None,
    }
}

/// A frame without events in between hands out no presses, releases or
/// resize, and the same held buttons and keys as the frame before: the frame
/// after a step is `after_step` of the collector, whatever it held.
pub proof fn lemma_quiet_frame(s: InputState)
    ensures
        after_step(s).mouse_inputs.len() == 0,
        after_step(s).key_inputs.len() == 0,
        after_step(s).new_size is None,
        after_step(s).mouse_held == s.mouse_held,
        after_step(s).physical_held == s.physical_held,
        after_step(s).logical_held == s.logical_held,
        after_step(after_step(s)) == after_step(s),
{
}

fn copy_set(s: &HashSet<u32>) -> (r: HashSet<u32>)
    ensures
        r@ == s@,
{
    broadcast use vstd::std_specs::hash::group_hash_axioms;

    let mut r: HashSet<u32> = HashSet::new();
    for x in it: s.iter()
        invariant
            it.seq().unref().to_set() == s@,
            r@ == it.seq().take(it.index()).unref().to_set(),
            it.index() == it.seq().len() ==> r@ == s@,
    {
        proof {
            let before = it.seq().take(it.index()).unref();
            assert(it.seq().take(it.index() + 1).unref() =~= before.push(*x));
            before.lemma_push_to_set_commute(*x);
            assert(it.seq().take(it.seq().len() as int) =~= it.seq());
        }
        r.insert(*x);
    }
    r
}

fn copy_keys(keys: &Vec<String>) -> (r: Vec<String>)
    ensures
        logical_set(r@) == logical_set(keys@),
{
    let mut r: Vec<String> = Vec::new();
    for k in 0..keys.len()
        invariant
            r.len() == k,
            k <= keys.len(),
            forall|i: int| 0 <= i < k ==> (#[trigger] r@[i])@ == keys@[i]@,
    {
        r.push(keys[k].clone());
    }
    assert(logical_set(r@) =~= logical_set(keys@)) by {
        assert forall|key: Seq<char>| logical_set(keys@).contains(key) implies logical_set(
            r@,
        ).contains(key) by {
            let i = choose|i: int| 0 <= i < keys.len() && #[trigger] keys@[i]@ == key;
            assert(r@[i]@ == key);
        }
        assert forall|key: Seq<char>| logical_set(r@).contains(key) implies logical_set(
            keys@,
        ).contains(key) by {
            let i = choose|i: int| 0 <= i < r.len() && #[trigger] r@[i]@ == key;
            assert(keys@[i]@ == key);
        }
    }
    r
}

impl WindowInputCollector {
    /// A collector with no input, nothing held and no pending resize.
    pub fn new() -> (c: Self)
        ensures
            c@.mouse_inputs == Seq::<MouseInput>::empty(),
            c@.mouse_held == Set::<u32>::empty(),
            c@.key_inputs == Seq::<KeyInput>::empty(),
            c@.physical_held == Set::<u32>::empty(),
            c@.logical_held == Set::<Seq<char>>::empty(),
            c@.new_size is None,
    {
        let c = WindowInputCollector {
            mouse_inputs: Vec::new(),
            mouse_held: HashSet::new(),
            key_inputs: Vec::new(),
            physical_key_held: HashSet::new(),
            key_held: Vec::new(),
            new_size: None,
        };
        assert(logical_set(c.key_held@) =~= Set::<Seq<char>>::empty());
        c
    }

    /// Records a mouse button going down or up.
    pub fn handle_mouse_input(&mut self, state: ElementState, button: u32)
        ensures
            final(self)@ == (InputState {
                mouse_inputs: old(self)@.mouse_inputs.push((MouseInput { state, button })),
                mouse_held: held_after(old(self)@.mouse_held, state, button),
                ..old(self)@
            }),
    {
        self.mouse_inputs.push(MouseInput { state, button });
        match state {
            ElementState::Pressed => {
                self.mouse_held.insert(button);
            },
            ElementState::Released => {
                self.mouse_held.remove(&button);
            },
        }
    }

    /// Records a key going down or up, by physical key code and by logical key.
    pub fn handle_keyboard_input(&mut self, state: ElementState, physical_key: u32, logical_key: String)
        ensures
            final(self)@ == (InputState {
                key_inputs: old(self)@.key_inputs.push(
                    (KeyInput { state, physical_key, logical_key }),
                ),
                physical_held: held_after(old(self)@.physical_held, state, physical_key),
                logical_held: held_after(old(self)@.logical_held, state, logical_key@),
                ..old(self)@
            }),
    {
        let ghost old_keys = self.key_held@;
        match state {
            ElementState::Pressed => {
                if !contains_key(&self.key_held, &logical_key) {
                    self.key_held.push(logical_key.clone());
                }
                assert(logical_set(self.key_held@) =~= logical_set(old_keys).insert(logical_key@))
                    by {
                    if !logical_set(old_keys).contains(logical_key@) {
                        assert(self.key_held@[old_keys.len() as int]@ == logical_key@);
                        assert forall|k: Seq<char>|
                            logical_set(self.key_held@).contains(k) implies logical_set(
                            old_keys,
                        ).insert(logical_key@).contains(k) by {
                            let i = choose|i: int|
                                0 <= i < self.key_held.len() && #[trigger] self.key_held@[i]@ == k;
                            if i < old_keys.len() {
                                assert(old_keys[i]@ == k);
                            }
                        }
                        assert forall|k: Seq<char>|
                            logical_set(old_keys).contains(k) implies logical_set(
                            self.key_held@,
                        ).contains(k) by {
                            let i = choose|i: int|
                                0 <= i < old_keys.len() && #[trigger] old_keys[i]@ == k;
                            assert(self.key_held@[i]@ == k);
                        }
                    }
                }
                self.physical_key_held.insert(physical_key);
            },
            ElementState::Released => {
                let mut kept: Vec<String> = Vec::new();
                for k in 0..self.key_held.len()
                    invariant
                        k <= self.key_held.len(),
                        self.key_held@ == old_keys,
                        forall|j: int|
                            0 <= j < kept.len() ==> (#[trigger] kept@[j])@ != logical_key@,
                        forall|key: Seq<char>|
                            #![trigger logical_set(kept@).contains(key)]
                            logical_set(kept@).contains(key) <==> (key != logical_key@
                                && exists|i: int|
                                0 <= i < k && #[trigger] old_keys[i]@ == key),
                {
                    let ghost before = kept@;
                    if self.key_held[k] != logical_key {
                        kept.push(self.key_held[k].clone());
                    }
                    assert forall|key: Seq<char>|
                        #![trigger logical_set(kept@).contains(key)]
                        logical_set(kept@).contains(key) <==> (key != logical_key@
                            && exists|i: int| 0 <= i < k + 1 && #[trigger] old_keys[i]@ == key) by {
                        if logical_set(kept@).contains(key) {
                            let j = choose|j: int| 0 <= j < kept.len() && #[trigger] kept@[j]@ == key;
                            if j < before.len() {
                                assert(logical_set(before).contains(key));
                            } else {
                                assert(old_keys[k as int]@ == key);
                            }
                        }
                        if key != logical_key@ && exists|i: int|
                            0 <= i < k + 1 && #[trigger] old_keys[i]@ == key {
                            let i = choose|i: int| 0 <= i < k + 1 && #[trigger] old_keys[i]@ == key;
                            if i < k {
                                assert(old_keys[i]@ == key);
                                assert(logical_set(before).contains(key));
                                let j = choose|j: int| 0 <= j < before.len() && #[trigger] before[j]@ == key;
                                assert(kept@[j]@ == key);
                            } else {
                                assert(kept@[before.len() as int]@ == key);
                            }
                        }
                    }
                }
                assert(logical_set(kept@) =~= logical_set(old_keys).remove(logical_key@));
                self.key_held = kept;
                self.physical_key_held.remove(&physical_key);
            },
        }
        self.key_inputs.push(KeyInput { state, physical_key, logical_key });
    }

    /// Records that the window was resized to the given size.
    pub fn handle_resize(&mut self, width: u32, height: u32)
        ensures
            final(self)@ == (InputState { new_size: Some((width, height)), ..old(self)@ }),
    {
        self.new_size = Some((width, height));
    }

    /// Ends a frame: hands out the frame's input, what is held and the
    /// pending resize, and starts the next frame with no input and no resize;
    /// what is held stays held.
    pub fn step(&mut self) -> (r: WindowInputs)
        ensures
            r@ == old(self)@,
            final(self)@ == after_step(old(self)@),
    {
        let mut mouse_inputs: Vec<MouseInput> = Vec::new();
        std::mem::swap(&mut mouse_inputs, &mut self.mouse_inputs);
        let mut key_inputs: Vec<KeyInput> = Vec::new();
        std::mem::swap(&mut key_inputs, &mut self.key_inputs);
        let new_size = self.new_size;
        self.new_size = None;
        let mouse = WindowMouseInputs { inputs: mouse_inputs, held: copy_set(&self.mouse_held) };
        let keyboard = WindowKeyboardInputs {
            inputs: key_inputs,
            physical_held: copy_set(&self.physical_key_held),
            logical_held: copy_keys(&self.key_held),
        };
        WindowInputs { mouse, keyboard, new_size }
    }
}

} // verus!
