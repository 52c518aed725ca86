# git_ai

The verified core of git-ai's attribution tooling, written in Verus.

`src/` is the library; every function in it carries a contract that Verus
proves:

- `line_range`: line ranges of attestations (membership, overlap, removal,
  compression of line lists, shifting after edits, display).
- `authorship_log`, `attestation`, `contributors`: the records of an
  authorship log, the ordering of prompt records, and per-developer counts
  with their merge.
- `stats`, `commit_stats`, `hunk_stats`, `tool_counts`: which added lines of a
  commit the log credits to AI and to known humans, and the commit statistics
  built from a diff.
- `bash_tool`, `snapshot`, `bash_sessions`, `nul_fields`, `git_status`,
  `path_order`: change detection for shell tool calls from stat snapshots,
  with the git fallbacks.
- `rebase_mapping`, `daemon_cli`, `install_hooks`, `sweep`: the decisions of
  the rebase commit mapping, of the background service's command line and
  start-up, of hook installation, and of transcript sweeps.

Work that needs the outside world (a walk of the working tree, git
processes, files, sockets, clocks) is asked for by the library as a request
and answered by the caller as an event; `app/` holds that plumbing and the
floating-point renderings of statistics.

`tests/` runs the library on concrete inputs.
