# Tulya–MDL

Deterministic block alignment of two byte strings by minimum description length,
written in Verus with its behaviour stated in contracts and proved.

A *block* is an exact diagonal match `source[i..i+len] == target[j..j+len]`. The
library searches for a family of non-overlapping blocks that minimises the energy

    λ(#blocks) + Σ (λ(i+1) + λ(j+1) + λ(len)) + 8 · (uncovered source bytes + uncovered target bytes)

by local descent: at every step it moves to the best neighbouring family (one candidate
block added or one block removed), ties broken by the sorted blocks, until no neighbour
is better. Two descents are provided: a baseline one that recomputes every energy
(`v1`) and a fast one that keeps coverage bitsets and the energy up to date (`v2`); the
crate proves that both pass through the same families and stop at the same one.

## Layout

- `src/` — the verified library:
  - `types.rs`: blocks, the length function `λ`, the longest-common-prefix table;
  - `energy.rs`: coverage and the energy as specifications, and their computation;
  - `keys.rs`: canonical keys (sorted blocks) and their order;
  - `descent.rs`: candidates, admissible families, the comparison of families;
  - `v1.rs`, `v2.rs`: the baseline and the fast descent; `coverage_bits.rs` holds the
    bitsets of the fast descent (a `bitvec` bit vector);
  - `agreement.rs`: the two descents agree step by step;
  - `diagnostics.rs`: energy breakdown and per-block gains;
  - `mapping.rs`, `clusters.rs`, `segments.rs`: position mapping, diagonal clusters and
    labelled segments of an alignment; `pipeline.rs` chains them;
  - `cli.rs`: options, hexadecimal input, input selection; `report.rs`: table orders,
    counts and the alignment marks; `text.rs`: bytes as text.
- `tests/` — scenario tests and tests of the laws on concrete inputs.
- `app/` — the command-line program: argument parsing, file reading and printing.
