# pesto

A Usenet poster: files are cut into articles, encoded as yEnc, posted over NNTP
and described in an `.nzb`. On the way PAR2 recovery data is computed from the
same bytes.

## Layout

- `src/` is the library. Everything that decides or computes is here, with its
  contract, and is proved with Verus.
  - `yenc`, `article`, `nntp`: what is sent, and what the server says to it.
  - `par2`: field arithmetic, buffer layouts, the recovery encoder, packets and
    volumes; `par2::repair` shows what recovery blocks are good for.
  - `poster`: the geometry of recovery slices, the plan of a run, what a worker
    does next, the check afterwards, ordering and bookkeeping.
  - `progress`: the view of a run that its events build up, and how it is shown.
  - `config`, `rate`: settings and their precedence.
  - `nzb`, `nfo`, `json`, `history`, `indexer`, `notify`, `compress`: what is
    written and sent around an upload.
  - `text`, `chars`, `scan`, `paths`, `sizes`, `calendar`: text and dates.
  - `digests`, `environment`: hashing crates, the clock and chance.
- `app/` is the program: arguments, files, sockets, threads and the terminal.
  Estimates in floating point are computed there too.
- `tests/` runs the library on concrete values.

Functions named `law_*` state what holds of several functions together, such as
that encoded data decodes to what it was, or that as many consecutive recovery
blocks as slices are lost determine the lost slices.
