# vliw470

A static instruction scheduler and register allocator for VLIW-470, a
five-slot VLIW machine (two ALUs, a multiplier, a memory unit and a branch
unit), written in Verus. Each function carries a contract and is proved
against it.

## Layout

| Module                 | What it holds                                                        |
|------------------------|----------------------------------------------------------------------|
| `src/instruction.rs`   | instructions, units, bundles and their text                          |
| `src/parser.rs`        | assembly text to `Instruction`, against a spec of the grammar         |
| `src/dependency.rs`    | the dependency table: local, loop-carried, loop-invariant, post-loop |
| `src/scheduler.rs`     | ASAP list scheduling, bundling and register renaming                 |
| `src/pip_scheduler.rs` | modulo scheduling of the loop: interval search and layout            |
| `src/pip_reg_alloc.rs` | rotating registers and stage predicates for the pipelined loop       |
| `src/listing.rs`       | reading quoted lines and writing schedules as JSON-like listings     |
| `src/compile.rs`       | the whole tool on a parsed program                                   |
| `src/round_trip.rs`    | parsing the printed text of an instruction gives it back             |
| `app/main.rs`          | the command line: reads the input file, writes the listing           |

## What is proved, in brief

- The dependency table lists, for every read, exactly the producers of each
  kind, in order.
- The non-pipelined schedule is the ASAP schedule of each region, fits the
  units in every bundle, numbers the destinations in bundle, unit and slot
  order, points every read at its producer's new register, puts the loop
  branch, aimed at the bundle of the loop body's first instruction, at the end
  of the loop, adds nothing but the moves of registers that two producers
  carry around the loop, and makes the code after the loop read through those
  moves.
- The pipelined schedule keeps every dependence inside an iteration, has
  every value carried to the next iteration ready when that iteration reads
  it, never books a unit beyond its capacity modulo the initiation interval,
  uses the smallest interval, from the resource bound up to the body's length
  (or 3), at which the search succeeds, and list-schedules the code after the
  loop; register allocation keeps every slot's instruction up to its
  registers (and those naming no register unchanged), gives each loop
  destination its rotating register, and succeeds exactly when each of its
  phases, run in turn, does.
- Parsing and printing agree with the grammar and text specs, and parsing
  the printed line of an instruction (other than `nop`, with registers and
  loop targets a line can hold) gives the instruction back.

## Running

`app/main.rs <input> <output> --pip|--no_pip` reads a JSON array of assembly
lines and writes the bundles.
