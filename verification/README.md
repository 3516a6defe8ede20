# Caliper

A verified library for serial-arm robotics: the decisions of a robot engine, written in
Verus with contracts over mathematical models, down to the bits of every number.

- `scalar`: binary floating-point numbers as bit patterns, with addition, multiplication,
  division and square root proved to round correctly; parsing, printing and order.
- `xacro`: a macro expander for robot descriptions. What it needs from disk it asks for.
- `model`: descriptions compiled to movable joints and frames, mimic joints, meshes and
  convex hulls, grippers.
- `kinematics`: poses along the tree, Jacobian columns, singularities, path reports and
  lints.
- `ik`: damped steps with restarts, redundancy, and the closed form of arms with a
  spherical wrist.
- `motion`: jerk-limited profiles, synchronized joint moves, waypoint and time-optimal
  timing, straight and circular Cartesian moves.
- `planning`: two growing trees, an improving tree, roadmaps, smoothing, reachability.
- `hal`: the backend contract, wire codecs, simulated backends, the safety monitor, the
  control loop, teleoperation and recording.
- `script`: requests of a scripting front end, checked and read, and tables of samples.

The library holds no floating-point instruction. Where a result takes trigonometry, a
matrix decomposition or a collision query, the caller hands in a function, and the
contract says what follows for whatever that function computes.

`app/` is ordinary Rust around the library: files, `nalgebra` matrices and angles, Arrow
tables and JSON. `tests/` runs the library on concrete robots.
