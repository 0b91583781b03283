# room_planner

A floor-plan editor: walls are drawn point to point on a 2D canvas, the rooms
they enclose are found and filled, and the plan can be walked through in a 3D
view.

- `src/` is the verified library (Verus):
  - `models` — tools, walls, and the point and rectangle types of `egui` that
    walls are made of, with the few `egui` operations the editor calls;
  - `editor` — the editing rules: drawing, selecting, dragging, moving,
    deleting, clearing, switching tools;
  - `rooms` — the wall graph and the tracing of its rooms;
  - `triangulation` — ear clipping of a room's floor;
  - `mesh` — index buffers of the floor and 3D wall meshes.
- `app/` is the `eframe` program around it: windowing, painting, the GPU
  pipeline, file storage, and the geometry on floating point coordinates
  (snapping, distances, angles, areas).
- `tests/` runs the library on concrete plans.
