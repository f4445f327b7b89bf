# stylebench_fixture

The StyleBench workload generator (WebKit's LCG, seeds and knobs) and the text fixture
that the style runners read, written in Verus.

- `src/random.rs`: the LCG and its draws, with fractions as integers.
- `src/names.rs`, `src/sheet.rs`: names, selectors, rules and the generated sheet.
- `src/tree.rs`, `src/subtree.rs`, `src/walk.rs`: elements, the tree with its repeated
  runs, subtree sizes and tree order.
- `src/script.rs`, `src/mutations.rs`: the five edit batches per step, as spec functions
  and as the verified generator.
- `src/generator.rs`: the whole workload of a configuration.
- `src/model.rs`, `src/format.rs`, `src/parse.rs`, `src/roundtrip.rs`, `src/text.rs`:
  the fixture, its text form, its reader, and the proof that reading gives back what
  was written.
- `src/slots.rs`, `src/batches.rs`: what a runner derives from a fixture: parent, child
  and sibling links, and when a restyle is due.
- `app/main.rs`: the command line that prints a preset's fixture.
