# sim_an

Pickup-and-delivery vehicle routing with a simulated-annealing style search,
written in Verus.

- `src/` is the verified library: the feasibility check of a route plan
  (`validity_check`), the cost of a plan, the naive solver, the moves and
  rounds of the search (`alter_solution`), the repairs of late pickups,
  late deliveries and calls named too often (`correctors`), the layout of
  nodes on a map (`coordinate_generator`), marking points in a picture
  (`images_functions`), and the instances: the number rows of an instance
  file and the tables built from them (`instances`, `constants`).
- `app/` is the program around it: reading an instance file and grouping
  its lines, running the searches side by side, the exhaustive search over
  the orders of the calls, and writing pictures with the `image` and `gif`
  crates.
- `tests/` runs the library on small instances.
