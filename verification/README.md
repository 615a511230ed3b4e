# ecosystem

A predator–prey simulation: organisms wander, eat food and flee predators;
predators hunt organisms; both reproduce and starve. At the end a report of
the populations over time is drawn to `graph.svg`.

- `src/` is the verified library (Verus):
  - `quadtree.rs`: the quadtree that finds the entities an entity may touch.
    Objects are placed by their *route*, the chain of quadrants they fall in;
    the tree, its insertion, splitting, clearing and queries are proved
    against an abstract model, together with the laws that relate them.
  - `entities.rs`: kinds of entities and the per-frame census.
  - `plotdata.rs`: the axis ranges of the population report.
- `app/` is the program around it: the window and drawing (macroquad), the
  movement of entities and the quadrant tests on their `f32` coordinates,
  and the SVG report (plotters).
- `tests/` runs the library on concrete values.
