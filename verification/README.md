# cbld

The core of `cbld`, a build tool for C and C++ packages, written in Verus:
the rules that decide what gets built, in which order and with which
arguments, each with a contract that Verus proves.

- `src/` is the verified library: source discovery for tests and
  benchmarks, C++20 module scanning and build waves, the package index of
  overlay recipes, tool command lines (clang-format, clang-tidy), benchmark
  and test output parsing, what dependencies contribute to a build, the
  choices of `cbld update`, `--json` summaries, and the path and text
  helpers they rest on.
- `app/` is the command-line program around it: argument handling, file
  system walks, reading and writing files, running tools, decoding TOML
  with serde, and reading benchmark times as floating-point numbers.
- `tests/` exercises the library on concrete inputs.
