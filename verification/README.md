# ric3

A hardware model checker's core, written in Verus and proved.

- `src/lit.rs`: literals, lemmas (sorted cubes) with subsumption and their
  order, and a bounded set of literals.
- `src/frame.rs`: the frames of IC3 — adding a lemma (dropping the lemmas it
  subsumes, moving an equal lemma up, and reporting the solvers that must
  learn it), looking up a subsuming lemma, the inductive invariant, parents,
  and similar cubes.
- `src/aig.rs`, `src/display.rs`: the text of literals, lemmas and frames
  over an and-inverter graph.
- `src/options.rs`: the options of a run and their command-line form.
- `src/portfolio.rs`: the state of a portfolio run, the engines' arguments,
  and what to do with a certificate.
- `src/run.rs`: model formats, how properties are checked, result lines.
- `src/ghash.rs`: the hash sets of `giputils` used to find similar cubes.
- `app/`: the program — command line, processes, files, logging.
