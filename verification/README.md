# rapier_cave

A small cave-flying game on [Rapier](https://rapier.rs) and
[macroquad](https://macroquad.rs), whose rules are a library verified with
[Verus](https://github.com/verus-lang/verus).

## Controls

| Input | Action |
|-------|--------|
| Click / Down arrow | Thrust in the direction the box is pointing |
| Left / Right arrow | Rotate |
| R | Reset |

## Layout

- `src/`: the rules, each with a contract.
  - `cave`, `field`: what is loaded around the ship, walls and obstacles, as the
    window slides along the cave.
  - `obstacle`, `rng`: what stands at each obstacle slot.
  - `ship`, `slots`: which segment the ship is over, and which slots a window has.
  - `words`, `rounding`: single-precision numbers, as their 32-bit words.
  - `colliders`: the collider set of the physics engine, behind the contracts that
    the rest relies on.
  - `controls`, `particles`, `mesh`, `screen`, `window`: input, exhaust, and what is
    drawn.
- `app/`: the program: physics, input, drawing, and the geometry of the cave, which
  is floating point throughout.
- `tests/`: the library on concrete values, with the physics engine linked.

The laws that hold of the game as a whole are the public proof functions named
`law_...`: the walls without a gap around the ship, the obstacles that stay put as
the player flies back and forth, the spawn area that stays clear.
