# frame_graph

A frame graph for a Vulkan renderer, verified with Verus.

- `src/` is the library. A `FrameScope` collects the passes of a frame, orders
  them by what they read and write (`schedule`), tracks the access of every
  texture and derives the barriers between passes (`barrier`, `compiled`), and
  hands over the commands to record (`frame`, `scope`). A `FrameGraph` pools the
  transient textures of the frames in flight (`graph`). Textures of a scope live
  in a `slotmap::SlotMap` (`slots`), whose behaviour is stated there and trusted.
  What holds over many calls of a scope is in `calls`, and over many frames of a
  graph in `history`.
- `app/` puts the library on a device: it creates images with `ash`, allocates
  memory with `gpu-allocator`, and records barriers and callbacks.
- `tests/` runs the library, and compares its Vulkan values with those of `ash`.

Images, buffers and memory are plain numbers in the library. Callbacks are of
any type `C`; the library only hands them on.

Passes are compiled in an order in which each comes after those that write what
it reads. The indices of that order are then taken as indices of the compiled
passes; `law_pass_that_runs` says which pass runs when.
