# rift

The decision logic of the reactor of a tiling window manager for macOS,
verified with Verus.

The reactor hears what the window server and the accessibility API report
(displays, the spaces they show, windows appearing, moving and going) and
decides what the layout engine holds and what to ask of the applications.
This crate holds that logic, each function with a contract over a
mathematical model of its state, and the properties that span several
calls as proof functions (`law_*`).

## Layout of `src/`

- `ids.rs`: window, space and workspace ids.
- `assoc.rs`: association lists and the maps they stand for.
- `layout.rs`: the layout engine: which workspace each window belongs to
  and which windows each workspace's layout tree holds; the updates that
  an application's window reports make. Its invariant (a window in a tree
  is assigned to that tree's space) keeps every window in the layout of at
  most one space.
- `screen.rs`: display geometry in whole points, the display selectors.
- `space.rs`: the displays and the spaces they show, native fullscreen
  spaces and the per-display history of user spaces.
- `topology.rs`: display reconfiguration, during which window events are
  held back and counted.
- `transaction.rs`: the frame writes sent to windows, and how a frame
  change is told apart (stale, own write, move from outside).
- `menu.rs`: open menus and focus-follows-mouse.
- `raise.rs`: raise requests, grouped by application and display.
- `reactor.rs`: the reactor, putting these together.

`app/` turns CoreGraphics' floating-point frames into the whole-point
rectangles the reactor works with.
