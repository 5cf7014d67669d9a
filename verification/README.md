# Nodus

A logic gate simulator: AND, NAND, OR, NOR, NOT and XOR gates, HIGH and LOW
constants, toggle switches, clocks, light bulbs and seven segment displays,
connected by lines from outputs to inputs. Circuits are saved to and loaded
from `.ron` files, and every insertion, deletion and connection can be undone
and redone.

## Layout

- `src/` is the verified library.
  - `logic.rs`: signal values and the transition function of every gate.
  - `world.rs`: the world of components, connectors and connection lines;
    spawning, connecting, disconnecting, the transition and propagation
    steps, changing the number of inputs of a gate.
  - `save.rs`: snapshots of components and spawning from snapshots.
  - `load.rs`: clearing the world, loading a saved circuit and linking it.
  - `undo.rs`: the undo history and what undo and redo carry out.
  - `systems.rs`: the decisions of the interactive parts (toggle switches,
    clocks, light bulbs, dragging lines, selection, keyboard shortcuts, the
    file browser).
  - `menu.rs`: the radial menu from which components are inserted.
- `tests/` runs the library on concrete circuits.
- `app/` is a command line front end: it builds a sample circuit, runs the
  simulation with clocks timed in seconds, and reads and writes `.ron` files.

Every function of the library states what it does in its contract, and the
laws (`law_*`) state what holds across functions: what undo reverses, what
saving and loading keeps, what propagation changes, what every operation
keeps of the target maps.
