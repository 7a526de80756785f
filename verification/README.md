# orbits

A small orbital simulator: planets move along Kepler orbits around their
parents, a free body is pushed by their gravity, and its future trajectory is
predicted by placing the planets at future times.

`src/` is the verified library, the decisions of the simulator:

- `targeting`: click selection of objects, as a per-frame state machine, with
  proofs that its states stay consistent and settle after a frame without a
  click.
- `selection`: which object the camera follows and which planet serves as
  reference frame.
- `hierarchy`: recording the star system once, planning in which order its
  planets are placed relative to their parents, and which step's position is
  reported as the reference position.
- `placement_depth`: that the plan does not depend on the depth allowed, and
  that a map's size always suffices when any depth does.

`app/` is the bevy application around it: the world queries, the sprites and
the floating-point physics (orbit positions, forces, integration).
