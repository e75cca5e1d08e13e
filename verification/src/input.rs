use vstd::prelude::*;

verus! {

/// The physical keys that steer the camera; every other key is `Other`.
#[derive(Clone, Copy, Debug, PartialEq, Eq, Structural)]
pub enum KeyCode {
    KeyW,
    KeyS,
    KeyA,
    KeyD,
    Space,
    ShiftLeft,
    ShiftRight,
    KeyC,
    Other,
}

/// A mouse button.
#[derive(Clone, Copy, Debug, PartialEq, Eq, Structural)]
pub enum MouseButton {
    Left,
    Right,
    Middle,
    Back,
    Forward,
    Other(u16),
}

/// What the window reports, as far as the camera controls read it.
#[derive(Clone, Copy, Debug, PartialEq, Eq, Structural)]
pub enum ControlEvent {
    /// A key went down (`pressed`) or up.
    Key { code: KeyCode, pressed: bool },
    /// A mouse button went down (`pressed`) or up.
    Mouse { button: MouseButton, pressed: bool },
    /// The cursor moved; the controls keep no state of their own for it.
    CursorMoved,
    /// Anything else.
    Other,
}

/// Which movement keys are held, whether the fast modifier is held, and
/// whether the left mouse button is down (the camera is being dragged).
#[derive(Clone, Copy, Debug, PartialEq, Eq, Structural)]
pub struct ControlState {
    pub forward: bool,
    pub backward: bool,
    pub left: bool,
    pub right: bool,
    pub up: bool,
    pub down: bool,
    pub fast: bool,
    pub mouse_pressed: bool,
}

/// The state after key `code` went to `pressed`: W moves forward, S backward,
/// A left, D right, Space up, C down, either Shift makes it fast; other keys
/// change nothing.
pub open spec fn after_key(s: ControlState, code: KeyCode, pressed: bool) -> ControlState {
    match code {
        KeyCode::KeyW => ControlState { forward: pressed, ..s },
        KeyCode::KeyS => ControlState { backward: pressed, ..s },
        KeyCode::KeyA => ControlState { left: pressed, ..s },
        KeyCode::KeyD => ControlState { right: pressed, ..s },
        KeyCode::Space => ControlState { up: pressed, ..s },
        KeyCode::ShiftLeft => ControlState { fast: pressed, ..s },
        KeyCode::ShiftRight => ControlState { fast: pressed, ..s },
        KeyCode::KeyC => ControlState { down: pressed, ..s },
        KeyCode::Other => s,
    }
}

/// The state after `event`: keys as in `after_key`, the left mouse button
/// sets `mouse_pressed`, everything else leaves the state as it was.
pub open spec fn after_event(s: ControlState, event: ControlEvent) -> ControlState {
    match event {
        ControlEvent::Key { code, pressed } => after_key(s, code, pressed),
        ControlEvent::Mouse { button, pressed } => match button {
            MouseButton::Left => ControlState { mouse_pressed: pressed, ..s },
            _ => s,
        },
        _ => s,
    }
}

/// The flag that key `code` drives, where it drives one.
pub open spec fn key_flag(s: ControlState, code: KeyCode) -> bool {
    match code {
        KeyCode::KeyW => s.forward,
        KeyCode::KeyS => s.backward,
        KeyCode::KeyA => s.left,
        KeyCode::KeyD => s.right,
        KeyCode::Space => s.up,
        KeyCode::ShiftLeft => s.fast,
        KeyCode::ShiftRight => s.fast,
        KeyCode::KeyC => s.down,
        KeyCode::Other => false,
    }
}

/// One step of camera motion along the view direction, the right vector or
/// the world's up axis.
#[derive(Clone, Copy, Debug, PartialEq, Eq, Structural)]
pub enum Move {
    Forward,
    Backward,
    Right,
    Left,
    Up,
    Down,
}

/// The moves that the held keys ask for, in the order in which the camera
/// applies them: forward, backward, right, left, up, down.
pub open spec fn move_list(s: ControlState) -> Seq<Move> {
    (if s.forward { seq![Move::Forward] } else { Seq::empty() }) + (if s.backward {
        seq![Move::Backward]
    } else {
        Seq::empty()
    }) + (if s.right { seq![Move::Right] } else { Seq::empty() }) + (if s.left {
        seq![Move::Left]
    } else {
        Seq::empty()
    }) + (if s.up { seq![Move::Up] } else { Seq::empty() }) + (if s.down {
        seq![Move::Down]
    } else {
        Seq::empty()
    })
}

impl ControlState {
    /// Nothing held.
    pub fn new() -> (s: ControlState)
        ensures
            !s.forward && !s.backward && !s.left && !s.right,
            !s.up && !s.down && !s.fast && !s.mouse_pressed,
    {
        ControlState {
            forward: false,
            backward: false,
            left: false,
            right: false,
            up: false,
            down: false,
            fast: false,
            mouse_pressed: false,
        }
    }

    /// The moves of one camera update (see `move_list`).
    pub fn moves(&self) -> (moves: Vec<Move>)
        ensures
            moves@ == move_list(*self),
    {
        let mut moves: Vec<Move> = Vec::new();
        if self.forward {
            moves.push(Move::Forward);
        }
        if self.backward {
            moves.push(Move::Backward);
        }
        if self.right {
            moves.push(Move::Right);
        }
        if self.left {
            moves.push(Move::Left);
        }
        if self.up {
            moves.push(Move::Up);
        }
        if self.down {
            moves.push(Move::Down);
        }
        assert(moves@ =~= move_list(*self));
        moves
    }

    /// How many times the base speed the camera moves at: three times while
    /// the fast modifier is held, once otherwise.
    pub fn speed_factor(&self) -> (factor: u32)
        ensures
            factor == if self.fast { 3u32 } else { 1u32 },
    {
        if self.fast {
            3
        } else {
            1
        }
    }

    /// Takes one event into account (see `after_event`).
    pub fn process_event(&mut self, event: &ControlEvent)
        ensures
            *final(self) == after_event(*old(self), *event),
    {
        match event {
            ControlEvent::Key { code, pressed } => {
                let p: bool = *pressed;
                match code {
                    KeyCode::KeyW => self.forward = p,
                    KeyCode::KeyS => self.backward = p,
                    KeyCode::KeyA => self.left = p,
                    KeyCode::KeyD => self.right = p,
                    KeyCode::Space => self.up = p,
                    KeyCode::ShiftLeft | KeyCode::ShiftRight => self.fast = p,
                    KeyCode::KeyC => self.down = p,
                    KeyCode::Other => {},
                }
            },
            ControlEvent::Mouse { button: MouseButton::Left, pressed } => {
                self.mouse_pressed = *pressed;
            },
            _ => {},
        }
    }
}

/// Only the last of two events on the same key counts.
pub proof fn lemma_last_key_event_wins(s: ControlState, code: KeyCode, first: bool, second: bool)
    ensures
        after_key(after_key(s, code, first), code, second) == after_key(s, code, second),
{
}

/// Pressing a key that was up and letting it go again leaves the controls as
/// they were.
pub proof fn lemma_press_release_restores(s: ControlState, code: KeyCode)
    requires
        !key_flag(s, code),
    ensures
        after_event(
            after_event(s, ControlEvent::Key { code, pressed: true }),
            ControlEvent::Key { code, pressed: false },
        ) == s,
{
}

/// Whether keys `a` and `b` drive the same flag.
pub open spec fn same_flag(a: KeyCode, b: KeyCode) -> bool {
    a == b || ((a == KeyCode::ShiftLeft || a == KeyCode::ShiftRight) && (b == KeyCode::ShiftLeft
        || b == KeyCode::ShiftRight))
}

/// After a key event, the key's flag holds whether the key is down, and every
/// flag that the key does not drive is unchanged.
pub proof fn lemma_key_sets_its_flag(s: ControlState, code: KeyCode, pressed: bool, other: KeyCode)
    requires
        code != KeyCode::Other,
    ensures
        key_flag(after_key(s, code, pressed), code) == pressed,
        !same_flag(code, other) ==> key_flag(after_key(s, code, pressed), other) == key_flag(
            s,
            other,
        ),
        after_key(s, code, pressed).mouse_pressed == s.mouse_pressed,
{
}

/// Cursor motion, other window events, and every mouse button but the left
/// one leave the whole control state as it was; the left button sets only
/// the drag flag, to whether it is down.
pub proof fn lemma_only_keys_and_left_button_change_state(
    s: ControlState,
    button: MouseButton,
    pressed: bool,
)
    ensures
        after_event(s, ControlEvent::CursorMoved) == s,
        after_event(s, ControlEvent::Other) == s,
        button != MouseButton::Left ==> after_event(s, ControlEvent::Mouse { button, pressed })
            == s,
        after_event(s, ControlEvent::Mouse { button: MouseButton::Left, pressed }).mouse_pressed
            == pressed,
        ({
            let t = after_event(s, ControlEvent::Mouse { button: MouseButton::Left, pressed });
            &&& t.forward == s.forward
            &&& t.backward == s.backward
            &&& t.left == s.left
            &&& t.right == s.right
            &&& t.up == s.up
            &&& t.down == s.down
            &&& t.fast == s.fast
        }),
{
}

/// A key event never changes whether the camera is being dragged.
pub proof fn lemma_keys_leave_drag(s: ControlState, code: KeyCode, pressed: bool)
    ensures
        after_event(s, ControlEvent::Key { code, pressed }).mouse_pressed == s.mouse_pressed,
{
}

/// Each move is asked for exactly when its own key is held, whatever the
/// other keys do, and none is asked for twice.
pub proof fn lemma_moves_follow_flags(s: ControlState)
    ensures
        move_list(s).contains(Move::Forward) <==> s.forward,
        move_list(s).contains(Move::Backward) <==> s.backward,
        move_list(s).contains(Move::Right) <==> s.right,
        move_list(s).contains(Move::Left) <==> s.left,
        move_list(s).contains(Move::Up) <==> s.up,
        move_list(s).contains(Move::Down) <==> s.down,
        move_list(s).no_duplicates(),
        move_list(s).len() == (if s.forward { 1int } else { 0int }) + (if s.backward {
            1int
        } else {
            0int
        }) + (if s.right { 1int } else { 0int }) + (if s.left { 1int } else { 0int }) + (if s.up {
            1int
        } else {
            0int
        }) + (if s.down { 1int } else { 0int }),
{
    let p1: Seq<Move> = if s.forward { seq![Move::Forward] } else { Seq::empty() };
    let p2: Seq<Move> = if s.backward { seq![Move::Backward] } else { Seq::empty() };
    let p3: Seq<Move> = if s.right { seq![Move::Right] } else { Seq::empty() };
    let p4: Seq<Move> = if s.left { seq![Move::Left] } else { Seq::empty() };
    let p5: Seq<Move> = if s.up { seq![Move::Up] } else { Seq::empty() };
    let p6: Seq<Move> = if s.down { seq![Move::Down] } else { Seq::empty() };
    let a1 = p1;
    let a2 = a1 + p2;
    let a3 = a2 + p3;
    let a4 = a3 + p4;
    let a5 = a4 + p5;
    let a6 = a5 + p6;
    assert(move_list(s) == a6);
    assert forall|m: Move| #[trigger] a6.contains(m) <==> move_held(s, m) by {
        lemma_concat_contains(a1, p2, m);
        lemma_concat_contains(a2, p3, m);
        lemma_concat_contains(a3, p4, m);
        lemma_concat_contains(a4, p5, m);
        lemma_concat_contains(a5, p6, m);
        if p1.contains(m) { assert(p1[0] == m); }
        if p2.contains(m) { assert(p2[0] == m); }
        if p3.contains(m) { assert(p3[0] == m); }
        if p4.contains(m) { assert(p4[0] == m); }
        if p5.contains(m) { assert(p5[0] == m); }
        if p6.contains(m) { assert(p6[0] == m); }
        if move_held(s, m) {
            match m {
                Move::Forward => assert(p1[0] == m),
                Move::Backward => assert(p2[0] == m),
                Move::Right => assert(p3[0] == m),
                Move::Left => assert(p4[0] == m),
                Move::Up => assert(p5[0] == m),
                Move::Down => assert(p6[0] == m),
            }
        }
    }
    assert(move_held(s, Move::Forward) == s.forward);
    assert(move_held(s, Move::Backward) == s.backward);
    assert(move_held(s, Move::Right) == s.right);
    assert(move_held(s, Move::Left) == s.left);
    assert(move_held(s, Move::Up) == s.up);
    assert(move_held(s, Move::Down) == s.down);
    lemma_concat_no_duplicates(a1, p2);
    lemma_concat_no_duplicates(a2, p3);
    lemma_concat_no_duplicates(a3, p4);
    lemma_concat_no_duplicates(a4, p5);
    lemma_concat_no_duplicates(a5, p6);
}

/// Whether the key that asks for move `m` is held.
pub open spec fn move_held(s: ControlState, m: Move) -> bool {
    match m {
        Move::Forward => s.forward,
        Move::Backward => s.backward,
        Move::Right => s.right,
        Move::Left => s.left,
        Move::Up => s.up,
        Move::Down => s.down,
    }
}

proof fn lemma_concat_contains<A>(a: Seq<A>, b: Seq<A>, x: A)
    ensures
        (a + b).contains(x) <==> a.contains(x) || b.contains(x),
{
    if (a + b).contains(x) {
        let k = choose|k: int| 0 <= k < (a + b).len() && (a + b)[k] == x;
        if k < a.len() {
            assert(a[k] == x);
        } else {
            assert(b[k - a.len()] == x);
        }
    }
    if a.contains(x) {
        let k = choose|k: int| 0 <= k < a.len() && a[k] == x;
        assert((a + b)[k] == x);
    }
    if b.contains(x) {
        let k = choose|k: int| 0 <= k < b.len() && b[k] == x;
        assert((a + b)[k + a.len()] == x);
    }
}

proof fn lemma_concat_no_duplicates<A>(a: Seq<A>, b: Seq<A>)
    requires
        a.no_duplicates(),
        b.no_duplicates(),
        forall|x: A| a.contains(x) ==> !b.contains(x),
    ensures
        (a + b).no_duplicates(),
{
    let c = a + b;
    assert forall|i: int, j: int| 0 <= i < c.len() && 0 <= j < c.len() && i != j implies c[i]
        != c[j] by {
        if i < a.len() && j >= a.len() {
            assert(a.contains(c[i]));
            assert(b[j - a.len()] == c[j]);
        } else if j < a.len() && i >= a.len() {
            assert(a.contains(c[j]));
            assert(b[i - a.len()] == c[i]);
        } else if i >= a.len() {
            assert(b[i - a.len()] != b[j - a.len()]);
        }
    }
}

} // verus!
