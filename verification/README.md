# kessetsu

The verified core of the Kessetsu circuit language, written in Verus. Each
public function states in its contract what it returns, over mathematical
models (`Seq`, `Map`, spec functions), and Verus proves the code against it.

Layout of `src/`:

- `text` — character-level helpers and their specifications (case folding,
  trimming, UTF-8 byte lengths, lexicographic order).
- `expression`, `ast`, `elaboration` — typed parameter expressions, the
  syntax tree and module flattening.
- `component`, `graph`, `erc` — the component catalog, net connectivity and
  electrical rule checks.
- `models`, `model_resources`, `devices` — model registries, external model
  files and libraries, and the model behind each declared component.
- `lowering` — a flattened program lowered to its circuit: models resolved
  (user models and subcircuits compiled on the way), each declaration bound
  to its kind and model, and the model manifest. What needs floating point
  (reading numbers, pole capacitances) is read outside and handed in.
- `parameters` — checks on parameter declarations, their evaluation order
  (the least ready name first) and the dependency cycle that stops it.
- `pipeline` — compiling a parsed program: flattening, lowering, the
  connectivity graph and rule checks, and a layout only when no error was
  found.
- `ltspice` — orientations of native LTspice symbols (quarter turns and
  mirroring, undone exactly) and the placement of a symbol over its pins.
- `parts`, `handoff`, `bom` — physical part assignments, the manufacturing
  handoff that lists footprints, model files and open gaps, and the bill of
  materials that groups board components by the part they call for.
- `layout` — automatic placement and rectilinear wiring of a schematic.
- `compiler`, `exporter`, `capabilities`, `experiment`, `measurement` —
  diagnostics and their source locations, export descriptors, the
  discovery manifest, study bookkeeping and the measurement vocabulary.
- `hashing` — SHA-256 digests through the `sha2` crate.

The laws that tie functions together are public proof functions
(`lemma_...`) next to the functions they speak of.

`app/` holds the `kess` command-line front end and the model lock file's
JSON form; `tests/` runs the library on concrete circuits.

Maps are kept as vectors of pairs under an invariant rather than as
`BTreeMap`s. The model files bound to a program (`ExternalModelResources`)
are a vector sorted by file name with no name twice: vstd's specification
of `BTreeMap` and `HashMap` states lookups through the key's view only for
keys whose equality it knows, and with `String` keys it proves too little
(not even the length after one insert) to carry the contracts here. The
sorted vector gives the same order and lookups, proved.
