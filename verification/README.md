# banshee_core

Decides how much pressure a Mac is under. Samples and censuses of the machine go
in; one glyph, a ranked worklist, alert episodes and a headroom hint for workers
come out. Every decision is written in Verus with its contract, and the laws that
tie the decisions together are proof functions named `law_…`, next to the
functions they speak of.

## Layout

- `src/` is the verified library.
  - `number`, `time`, `text`, `sorting`: doubles by their bit pattern, instants,
    text and a stable sort.
  - `sys`, `census`, `sample`, `rates`: what is observed, its storage form, the
    five-minute rollup and the counter rates.
  - `outside`: the calls that leave the library. What is claimed of them is taken
    on trust.
  - `pressure`: bands and their replay, the model's configuration, series,
    the data volume's horizons, levels, wording, attribution, findings, the
    evaluation, episodes, headroom, lookbacks and comparisons with the past.
- `app/` is ordinary Rust around it: the arithmetic on doubles and the rendering
  of numbers (`figures`, `trend`), and the JSON forms (`wire`, `wire_time`).
- `tests/` runs the library.

## Numbers

No arithmetic on doubles takes place in `src/`. A `Real` carries a double by its
bits; the library compares such numbers and turns whole numbers into them. What
has to be divided, fitted or rendered arrives in `Numbers`, and the contracts say
what is decided for every value that it may hold.
