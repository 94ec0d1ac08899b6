# neoutils

Command-line utilities with their logic proved correct by Verus:

- `cup`, a copier with progress, `.env` detection and JSON output;
- `ram`, a safer `rm` that moves targets to a trash, with restore, age and
  size filters, glob and `.gitignore` selection and automatic clean-up;
- `nav`, a directory jumper that ranks directories by "frecency";
- `neoutils`, an installer for the tools (a terminal screen or one command).

## Layout

- `src/` is the verified library. Each module states its results over
  mathematical models (sequences of characters, natural numbers) and proves
  its code against them:
  - `text`, `decimal`, `scaled`: characters, decimal digits and exact
    arithmetic on them;
  - `duration`, `size`: reading durations (`7d12h`) and sizes (`1.5GB`), and
    writing sizes (`1.5 KB`) exactly as binary floating point would;
  - `ratio`, `reading`: the double nearest to a decimal number, found from
    the leading binary digits of its value;
  - `paths`: Unix path components, parents, prefixes, the order of paths,
    `.env` detection, target filters and glob selection;
  - `gitignore`: `.gitignore` files compiled with the `ignore` crate (every
    refused line reported with its file and line number), the decision
    taken on each entry of the walk that collects ignored files under all
    the files that bear on it (the deepest one that matches decides), and
    the sorted list of what the walks report;
  - `trash`: the trash's names, listing, sorting, cleaning, restoring and
    the automatic clean-up;
  - `removal`, `copy`: the decisions of `ram` and `cup`;
  - `nav`: the frecency database and its queries;
  - `binary`, `monotone`: double-precision arithmetic done exactly with
    integers (as the frecency score needs it), and the proof that its
    rounding keeps order;
  - `installer`: the installer's screen state and commands;
  - `pattern`: the calls into the `regex` and `globset` crates.
- The configuration file of the trash is read with `serde_json` in `trash`.
- `app/` holds the programs: argument parsing, the file system, the
  terminal, the clock, and printing.
- `tests/` runs the library on concrete cases.
