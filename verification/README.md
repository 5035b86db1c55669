# koji_algorithms

The verified core of the Kōji clustering and routing algorithms, written in
Verus. Verus checks every function in `src/`, and the contracts of the
public functions say what they return.

Geometry (distances, projections, enclosing circles) is floating point and
stays with the callers: they work out which points each candidate disk
covers, which cells neighbour each other, and which way a route should turn,
and hand the library plain integer lists. The library then does the
combinatorial work and proves what it returns:

- `modes`, `options`: algorithm selectors parsed from names, and the lists of
  selectable options.
- `exact_cover`, `exact_basic`, `mask_prep`, `bitset`: the exact
  minimum-cost disk cover of a window of up to 128 points, proved optimal.
- `chunk_greedy`: the bucket-queue greedy of the per-chunk solver, with
  candidate ordering and partner pairs.
- `select`, `cap_cells`, `cover_dedup`, `center_cap`: keeping the best
  clusters under a cap. Greedy max coverage, the interchange rounds and
  the relocation step are each stated exactly (which pick comes in, which
  goes, in which order), and so is the polishing driver built from them.
  Candidate deduplication keeps exactly the first candidate of each
  distinct non-empty cover list.
- `cover_state`: coverage counts for refinement, with drop, move, merge,
  three-for-two swap and gap-fill moves that never raise the score.
- `greedy_select`: the round-based greedy of the classic clusterer.
- `union_find`, `components`: connectivity over cells; components come in
  order of their smallest cell.
- `regions`: region growing over occupied grid cells.
- `comb`, `stitch`: route orders that are permutations of their points.
- `stats`, `tally`: solution statistics and the lower bound on the cluster count.
- `plugins`: a plugin's default arguments with the request's laid over them.

`app/` holds the floating-point front ends and serde forms; `tests/` runs
the library on concrete inputs.
