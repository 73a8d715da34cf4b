# sync-typing-deps

Keeps `additional_dependencies` of the Python typing hooks (mypy, ty,
pyright) in a `.pre-commit-config.yaml` in sync with the dependencies that a
project declares in `setup.cfg`, `pyproject.toml` and the requirement lists
of its Home Assistant components.

The library under `src/` is verified with Verus:

- `text` — character-level string functions and the spec of `str::lines`;
- `assoc`, `ini` — an INI reader with Python-style continuation lines,
  modelled as association lists;
- `doc` — the TOML/JSON document tree that the dependency readers walk;
- `deps` — reading dependencies, the typing substitutions, coverage-plugin
  exclusion;
- `order` — sorting of dependency strings (sorted, a permutation);
- `precommit` — the line-based rewrite of the configuration;
- `preserve` — that every line outside a replaced block comes back
  unchanged and in its order;
- `stability` — that a second rewrite changes nothing, so a second sync
  finds nothing to do, and that the final newline is kept;
- `yaml` — the call into `serde_yaml` that reads a YAML text and tells
  whether a key maps to a sequence;
- `args` — command-line arguments.

`app/` is the command-line program: it reads the files, parses TOML and JSON
with serde into the library's document type, and writes the configuration
back. It exits with 1 when the configuration changed, as pre-commit expects.
