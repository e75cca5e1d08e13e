# physics_engine

A ball-pit simulation: balls fall under gravity, bounce on the floor and
collide with each other; the camera is steered with W/A/S/D, Space, C and
Shift, and dragged with the left mouse button; `b` drops a new ball.

`src/` is the verified library (Verus): everything the simulation decides on
integers.

- `grid`: the uniform grid of the broad phase, keyed by integer cell
  coordinates, and the 3x3x3 neighbour query.
- `world`: filing every ball into the grid and choosing, for each ball, the
  later balls it must be tested against. The proofs show that a query finds
  exactly the indices inserted into adjacent cells, as often as they were
  inserted, and that every adjacent pair comes up exactly once per sweep when
  each ball is queried at the cell it was filed under. The simulation queries
  each ball at its current cell, which can differ from the filed one once
  contacts earlier in the same sweep have moved it.
- `input`: the state of the camera controls and the moves it asks for.
- `scene`: the spawn key, what each window event leads to, and the lattice of
  the initial balls.
- `mesh`: merging the index lists of glTF primitives into one index buffer.

`app/` is the program around it: the window and event loop (winit), glTF
loading, random velocities, and all f32 vector, quaternion and matrix
arithmetic of the dynamics and the camera.
