use vstd::prelude::*;
use vstd::string::StrSliceExecFns;
use vstd::arithmetic::div_mod::lemma_fundamental_div_mod_converse;

verus! {

/// Whether the text a key produces is the spawn key: `b` or `B`.
pub fn is_spawn_key(text: &str) -> (b: bool)
    ensures
        b == (text@ == seq!['b'] || text@ == seq!['B']),
{
    if text.unicode_len() != 1 {
        assert(text@ != seq!['b'] && text@ != seq!['B']);
        return false;
    }
    let c: char = text.get_char(0);
    assert(text@ == seq![c]);
    c == 'b' || c == 'B'
}

/// Remembers whether the spawn key is held, so that holding it spawns once.
#[derive(Clone, Copy, Debug, PartialEq, Eq, Structural)]
pub struct SpawnLatch {
    pub held: bool,
}

/// Whether a spawn-key event with state `pressed` spawns a ball, given
/// whether the key was held before: only a press of a key that was up does.
pub open spec fn spawns(held: bool, pressed: bool) -> bool {
    pressed && !held
}

/// The number of balls that a run of spawn-key events spawns, starting with
/// the key held or not as `held` says.
pub open spec fn spawn_count(held: bool, events: Seq<bool>) -> nat
    decreases events.len(),
{
    if events.len() == 0 {
        0
    } else {
        spawn_count(held, events.drop_last()) + if spawns(
            held_after(held, events.drop_last()),
            events.last(),
        ) {
            1nat
        } else {
            0nat
        }
    }
}

/// Whether the key is held after a run of events.
pub open spec fn held_after(held: bool, events: Seq<bool>) -> bool {
    if events.len() == 0 {
        held
    } else {
        events.last()
    }
}

impl SpawnLatch {
    /// The key is up.
    pub fn new() -> (latch: SpawnLatch)
        ensures
            !latch.held,
    {
        SpawnLatch { held: false }
    }

    /// Takes a press (`pressed`) or release of the spawn key into account and
    /// says whether to spawn a ball now.
    pub fn on_spawn_key(&mut self, pressed: bool) -> (spawn: bool)
        ensures
            spawn == spawns(old(self).held, pressed),
            final(self).held == pressed,
    {
        if pressed {
            if !self.held {
                self.held = true;
                true
            } else {
                false
            }
        } else {
            self.held = false;
            false
        }
    }
}

/// What the window reports, as far as the application reads it.
#[derive(Clone, Debug)]
pub enum WindowInput {
    CloseRequested,
    RedrawRequested,
    Resized { width: u32, height: u32 },
    /// A key went down (`pressed`) or up; `text` is what it types, if anything.
    Key { text: Option<String>, pressed: bool },
    Other,
}

/// What the application does in answer to a window event.
#[derive(Clone, Copy, Debug, PartialEq, Eq, Structural)]
pub enum AppAction {
    /// Leave the event loop.
    Exit,
    /// Advance the simulation by the time since the last frame and draw it.
    Frame,
    /// Adapt the view to the new window size.
    Resize { width: u32, height: u32 },
    /// Add a ball.
    Spawn,
    Nothing,
}

/// Whether a key that types `text` is the spawn key.
pub open spec fn spawn_text(text: Option<String>) -> bool {
    match text {
        Some(t) => t@ == seq!['b'] || t@ == seq!['B'],
        None => false,
    }
}

/// The answer to `event` when the spawn key was held as `held` says, and
/// whether it is held afterwards.
pub open spec fn respond(held: bool, event: WindowInput) -> (AppAction, bool) {
    match event {
        WindowInput::CloseRequested => (AppAction::Exit, held),
        WindowInput::RedrawRequested => (AppAction::Frame, held),
        WindowInput::Resized { width, height } => (AppAction::Resize { width, height }, held),
        WindowInput::Key { text, pressed } => if spawn_text(text) {
            (if spawns(held, pressed) { AppAction::Spawn } else { AppAction::Nothing }, pressed)
        } else {
            (AppAction::Nothing, held)
        },
        WindowInput::Other => (AppAction::Nothing, held),
    }
}

impl SpawnLatch {
    /// Decides what to do about one window event (see `respond`).
    pub fn on_window_event(&mut self, event: &WindowInput) -> (action: AppAction)
        ensures
            (action, final(self).held) == respond(old(self).held, *event),
    {
        match event {
            WindowInput::CloseRequested => AppAction::Exit,
            WindowInput::RedrawRequested => AppAction::Frame,
            WindowInput::Resized { width, height } => AppAction::Resize {
                width: *width,
                height: *height,
            },
            WindowInput::Key { text, pressed } => {
                let is_spawn: bool = match text {
                    Some(t) => is_spawn_key(t.as_str()),
                    None => false,
                };
                if is_spawn {
                    if self.on_spawn_key(*pressed) {
                        AppAction::Spawn
                    } else {
                        AppAction::Nothing
                    }
                } else {
                    AppAction::Nothing
                }
            },
            WindowInput::Other => AppAction::Nothing,
        }
    }
}

/// The answers to a run of window events, and whether the spawn key is held
/// afterwards, starting with it held as `held` says.
pub open spec fn respond_run(held: bool, events: Seq<WindowInput>) -> (Seq<AppAction>, bool)
    decreases events.len(),
{
    if events.len() == 0 {
        (Seq::empty(), held)
    } else {
        let (actions, now) = respond_run(held, events.drop_last());
        let (action, after) = respond(now, events.last());
        (actions.push(action), after)
    }
}

/// The spawn-key events of a run, each as whether it presses the key.
pub open spec fn spawn_key_events(events: Seq<WindowInput>) -> Seq<bool>
    decreases events.len(),
{
    if events.len() == 0 {
        Seq::empty()
    } else {
        let rest = spawn_key_events(events.drop_last());
        match events.last() {
            WindowInput::Key { text, pressed } => if spawn_text(text) {
                rest.push(pressed)
            } else {
                rest
            },
            _ => rest,
        }
    }
}

/// How many of `actions` add a ball.
pub open spec fn spawn_answers(actions: Seq<AppAction>) -> nat
    decreases actions.len(),
{
    if actions.len() == 0 {
        0
    } else {
        spawn_answers(actions.drop_last()) + if actions.last() == AppAction::Spawn {
            1nat
        } else {
            0nat
        }
    }
}

/// Over any run of window events, with any other events in between, the
/// number of `Spawn` answers is the number of spawn-key presses that find the
/// key up, and whether the key is held afterwards is what the last spawn-key
/// event says (or what it was, where there was none).
pub proof fn lemma_spawns_over_run(held: bool, events: Seq<WindowInput>)
    ensures
        spawn_answers(respond_run(held, events).0) == spawn_count(held, spawn_key_events(events)),
        respond_run(held, events).1 == held_after(held, spawn_key_events(events)),
        respond_run(held, events).0.len() == events.len(),
    decreases events.len(),
{
    if events.len() > 0 {
        let rest = events.drop_last();
        lemma_spawns_over_run(held, rest);
        let (actions, now) = respond_run(held, rest);
        let (action, after) = respond(now, events.last());
        assert(actions.push(action).drop_last() == actions);
        let keys = spawn_key_events(rest);
        match events.last() {
            WindowInput::Key { text, pressed } => {
                if spawn_text(text) {
                    assert(keys.push(pressed).drop_last() == keys);
                }
            },
            _ => {},
        }
    }
}

/// Closing, redrawing, resizing and every event that is not the spawn key
/// are answered the same whether or not the spawn key is held, and leave the
/// latch as it was: a redraw always advances and draws a frame, a close
/// request always exits, a resize always passes the new size on.
pub proof fn lemma_answers_ignore_latch(
    held: bool,
    width: u32,
    height: u32,
    text: Option<String>,
    pressed: bool,
)
    ensures
        respond(held, WindowInput::RedrawRequested) == (AppAction::Frame, held),
        respond(held, WindowInput::CloseRequested) == (AppAction::Exit, held),
        respond(held, WindowInput::Resized { width, height }) == (
            AppAction::Resize { width, height },
            held,
        ),
        respond(held, WindowInput::Other) == (AppAction::Nothing, held),
        !spawn_text(text) ==> respond(held, WindowInput::Key { text, pressed }) == (
            AppAction::Nothing,
            held,
        ),
{
}

/// Only a press of the spawn key that finds it up spawns a ball; any event
/// that spawns is such a press.
pub proof fn lemma_spawn_only_on_first_press(held: bool, event: WindowInput)
    ensures
        respond(held, event).0 == AppAction::Spawn <==> (!held && match event {
            WindowInput::Key { text, pressed } => pressed && spawn_text(text),
            _ => false,
        }),
{
}

/// Holding the key, however often the window repeats the press, spawns once.
pub proof fn lemma_repeated_presses_spawn_once(n: nat)
    requires
        n > 0,
    ensures
        spawn_count(false, Seq::new(n, |i: int| true)) == 1,
    decreases n,
{
    let events = Seq::new(n, |i: int| true);
    if n > 1 {
        lemma_repeated_presses_spawn_once((n - 1) as nat);
        assert(events.drop_last() =~= Seq::new((n - 1) as nat, |i: int| true));
        assert(events.drop_last().last());
        assert(held_after(false, events.drop_last()));
        assert(!spawns(held_after(false, events.drop_last()), events.last()));
        assert(spawn_count(false, events.drop_last()) == 1);
    } else {
        assert(events.drop_last() =~= Seq::<bool>::empty());
        assert(spawn_count(false, events.drop_last()) == 0);
        assert(events.last());
    }
}

/// A ball is spawned for every event that finds the key up and presses it,
/// and for no other: never two without a release between them.
pub proof fn lemma_spawn_needs_release(held: bool, events: Seq<bool>, i: int, j: int)
    requires
        0 <= i < j < events.len(),
        spawns(held_after(held, events.take(i)), events[i]),
        spawns(held_after(held, events.take(j)), events[j]),
    ensures
        exists|k: int| i < k < j && !events[k],
{
    if !(exists|k: int| i < k < j && !events[k]) {
        assert(events.take(j).last() == events[j - 1]);
        if j - 1 == i {
            assert(events[i]);
        } else {
            assert(events[j - 1]);
        }
    }
}

/// The cell of the `k`-th ball of a cube of `grid` x `grid` x `grid` balls
/// whose lowest layer is `first_layer`: layers (y) vary slowest, then x, then z.
pub open spec fn lattice_cell(grid: int, first_layer: int, k: int) -> (int, int, int) {
    ((k / grid) % grid, first_layer + (k / grid) / grid, k % grid)
}

/// The lattice cells `(x, y, z)` of the initial cube of balls, for y from
/// `first_layer` up to `first_layer + grid`, then x and z from 0 up to `grid`,
/// in that nesting.
pub fn ball_lattice(grid: u32, first_layer: u32) -> (cells: Vec<(u32, u32, u32)>)
    requires
        first_layer + grid <= u32::MAX,
        grid * grid * grid <= usize::MAX,
    ensures
        cells.len() == grid * grid * grid,
        forall|k: int|
            0 <= k < cells.len() ==> {
                let (x, y, z) = #[trigger] cells[k];
                lattice_cell(grid as int, first_layer as int, k) == (x as int, y as int, z as int)
            },
{
    let mut cells: Vec<(u32, u32, u32)> = Vec::new();
    let ghost g: int = grid as int;
    assert(0 <= g * g <= g * g * g || g == 0) by (nonlinear_arith)
        requires
            g >= 0,
    ;
    let mut layer: u32 = 0;
    while layer < grid
        invariant
            g == grid,
            first_layer + grid <= u32::MAX,
            grid * grid * grid <= usize::MAX,
            layer <= grid,
            cells.len() == layer * g * g,
            forall|k: int|
                0 <= k < cells.len() ==> {
                    let (x, y, z) = #[trigger] cells[k];
                    lattice_cell(g, first_layer as int, k) == (x as int, y as int, z as int)
                },
        decreases grid - layer,
    {
        let mut x: u32 = 0;
        while x < grid
            invariant
                g == grid,
                first_layer + grid <= u32::MAX,
                grid * grid * grid <= usize::MAX,
                layer < grid,
                x <= grid,
                cells.len() == (layer * g + x) * g,
                forall|k: int|
                    0 <= k < cells.len() ==> {
                        let (x, y, z) = #[trigger] cells[k];
                        lattice_cell(g, first_layer as int, k) == (x as int, y as int, z as int)
                    },
            decreases grid - x,
        {
            let mut z: u32 = 0;
            while z < grid
                invariant
                    g == grid,
                    first_layer + grid <= u32::MAX,
                    grid * grid * grid <= usize::MAX,
                    layer < grid,
                    x < grid,
                    z <= grid,
                    cells.len() == (layer * g + x) * g + z,
                    forall|k: int|
                        0 <= k < cells.len() ==> {
                            let (x, y, z) = #[trigger] cells[k];
                            lattice_cell(g, first_layer as int, k) == (
                                x as int,
                                y as int,
                                z as int,
                            )
                        },
                decreases grid - z,
            {
                let ghost k: int = cells.len() as int;
                proof {
                    lemma_lattice_index(g, first_layer as int, layer as int, x as int, z as int);
                    assert(k + 1 <= g * g * g) by (nonlinear_arith)
                        requires
                            k == (layer * g + x) * g + z,
                            0 <= layer < g,
                            0 <= x < g,
                            0 <= z < g,
                    ;
                }
                cells.push((x, first_layer + layer, z));
                z = z + 1;
            }
            proof {
                assert((layer * g + x) * g + g == (layer * g + (x + 1)) * g) by (nonlinear_arith);
            }
            x = x + 1;
        }
        proof {
            assert((layer * g + g) * g == (layer + 1) * g * g) by (nonlinear_arith);
        }
        layer = layer + 1;
    }
    proof {
        assert(grid * g * g == grid * grid * grid) by (nonlinear_arith)
            requires
                g == grid,
        ;
    }
    cells
}

/// The lattice lists every cell of the cube once, layer by layer from
/// `first_layer` up, within a layer x by x, within that z by z: cell
/// (x, first_layer + layer, z) comes at position (layer * g + x) * g + z.
pub proof fn lemma_lattice_index(g: int, first_layer: int, layer: int, x: int, z: int)
    requires
        0 <= layer < g,
        0 <= x < g,
        0 <= z < g,
    ensures
        lattice_cell(g, first_layer, (layer * g + x) * g + z) == (x, first_layer + layer, z),
{
    let k: int = (layer * g + x) * g + z;
    lemma_fundamental_div_mod_converse(k, g, layer * g + x, z);
    lemma_fundamental_div_mod_converse(layer * g + x, g, layer, x);
}

/// Every position of the lattice names a cell of the cube: x and z in
/// `0..g`, y in `first_layer..first_layer + g`.
pub proof fn lemma_lattice_in_cube(g: int, first_layer: int, k: int)
    requires
        0 < g,
        0 <= k < g * g * g,
    ensures
        0 <= lattice_cell(g, first_layer, k).0 < g,
        first_layer <= lattice_cell(g, first_layer, k).1 < first_layer + g,
        0 <= lattice_cell(g, first_layer, k).2 < g,
{
    let q = k / g;
    assert(0 <= q < g * g) by (nonlinear_arith)
        requires
            0 < g,
            0 <= k < g * g * g,
            q == k / g,
    ;
    assert(0 <= q / g < g) by (nonlinear_arith)
        requires
            0 < g,
            0 <= q < g * g,
    ;
}

} // verus!
