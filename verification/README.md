# nanospice

A classic SPICE circuit simulator, written in Verus. Netlists in, comma
separated values out, one block per analysis: `.op`, `.dc` source sweeps,
`.tran` with an adaptive step and `uic`, `.ac` with `dec` or `lin`.

## Netlists

| Card | Device |
|---|---|
| `Rxxx p n value` | resistor |
| `Cxxx p n value [ic=v] [m=0]` | capacitor, graded junction for m > 0 |
| `Lxxx p n value [ic=i]` | inductor |
| `Vxxx p n [dc v] [ac mag] [sin(vo va f td theta)] [pulse(v1 v2 td tr tf pw per)] [pwl(t1 v1 t2 v2 ...)]` | voltage source |
| `Ixxx p n ...` | current source, as V |
| `Dxxx p n [model] [is=1e-14] [n=1] [cjo=0] [mj=0.5]` | diode |
| `Mxxx d g s b nmos\|pmos [model] [kp=2e-5] [vt0=0] [lambda=0] [cgs=0] [cgd=0]` | MOSFET, square law |
| `Jxxx d g s njf\|pjf [model] [beta=1e-4] [vto=-2] [lambda=0] [cgs=0] [cgd=0]` | JFET, square law |
| `Qxxx c b e npn\|pnp [model] [is=1e-16] [bf=100] [br=1] [cje=0] [cjc=0] [mj=0.5]` | BJT, Ebers-Moll |
| `Exxx p n cp cn gain` | voltage controlled voltage source |
| `Gxxx p n cp cn gm` | voltage controlled current source |

The first line is the title. `*` starts a comment line, `;` a trailing comment,
`+` continues the line before. Node `0` or `gnd` is ground. Unit suffixes are
`t g meg k m u n p f`. Parameters of an instance override those of its
`.model`. `.print v(out) i(v1)` selects columns; without it everything is
printed. No device and no control card is read behind `.end`.

## Layout

- `src/` is the simulator, all of it verified: the reader, the device models,
  the sparse solver, the Newton iteration with its continuations, the step
  control, and the text of the results.
- `app/` is the program around it: arguments, files, output, and double
  precision numbers.
- `tests/` runs the library on double precision numbers and on the integers
  modulo seven.

## What is proved

Every function returns exactly what its contract says: `netlist.rs` defines
what a text means, `equations.rs` what elimination with partial pivoting
computes, `assembly.rs` the equations of a circuit, and `sweep.rs`,
`transient.rs` and `small_signal.rs` the lines of a report.

The arithmetic is a parameter (`num.rs`). The contracts speak of its operations
one by one, so they hold of rounded numbers too; nothing is claimed of an
operation but that it is a function of its arguments. What needs exact
arithmetic is stated under that hypothesis, which `seven.rs` shows can be met.
Laws about signs ask for less, and rounded numbers meet it (`signs.rs`).

On top of the contracts stand the laws, public proof functions with a sentence
each. Some of them:

- every circuit that is read is sound, and title, comments, letter case, the
  bulk terminal, and devices and control cards behind `.end` do not matter; an
  instance overrides its model, and the groups of a source may stand in any
  order (`netlist_laws.rs`, `reading_laws.rs`, `source_laws.rs`);
- elimination gives the one solution of a system, or names the first dependent
  column of a singular one (`exact.rs`), over the complex numbers too
  (`complex_laws.rs`);
- the solution of the equations of a circuit obeys Kirchhoff's laws
  (`kirchhoff.rs`);
- an iteration that reports convergence has come to rest, linear circuits
  converge at once, and the mirror image of a circuit rests at the negated
  point (`solver_laws.rs`, `mirror.rs`);
- transistors are evaluated in an upright frame, complementary ones mirror each
  other, charge and current are continuous where their formulas change, and the
  charge integrates the capacitance (`model_laws.rs`);
- the rows of a transient analysis rise to its end and show every corner of the
  sources, the predictor continues quadratics, the trapezoidal rule keeps the
  energy of a resonator, and an interrupted analysis can be taken up again
  (`breaks.rs`, `time_laws.rs`, `transient_laws.rs`, `predictor.rs`,
  `energy.rs`).

The one thing believed without proof is that `String::push` appends a
character.
