# netflix_prize

The logic of a rating-prediction pipeline: ingesting a data set of dated ratings, splitting it,
running the jobs that train predictors, blending their predictions, and keeping them in step with a
public store.

- `src/` is a library. Verus proves the contract of each of its functions, except for the small
  private ones that are marked `external_body`: each of those stands for a call into another crate
  or into `std`, and what its contract says of that call is believed, not proved. The doc comment
  above it names the call and says what is claimed of it. The spec functions without a body name
  what such calls return, or what an ordered map holds.
- `tests/` runs it on concrete values.
- `app/` holds the programs around it: files, the network, command lines, and what is computed in
  floating point.

## The library

| module | what it holds |
| --- | --- |
| `lines`, `records`, `ingest`, `newsplit` | reading the raw lists, and splitting ratings into sets |
| `numpy_rng`, `order` | a seed sequence, a 64-bit permuted congruential generator, a stable sort |
| `archive`, `download`, `npy` | what is in the archive, fetching it, and headers of arrays |
| `args`, `blend_args`, `ridge_args`, `fs_args`, `tool_args` | command lines |
| `models`, `specs`, `groups`, `registry` | lists of models: reading, choosing, columns, clipping, names with braces |
| `folds`, `gram`, `fwls`, `selection` | cross-fits, sums of products, forward selection |
| `reference`, `expected` | stored ensembles: what they are checked against, and recording it |
| `freq`, `usertables`, `caches`, `pool`, `jobs` | the tables and settings that models are fitted with |
| `runner`, `preds`, `store` | states of jobs, patterns, and plans to fetch, upload and delete |
| `text`, `decimals` | text and decimal numbers |

Real numbers never enter the library: a program hands it what it has to know of them (whether a
text is a number, how two scores compare).
