# architect

Contributor and language statistics of a git history: commits, inserted
and deleted lines per author, per day of the week and per quarter of the
day; the top contributor of each month; the file extensions of the tree at
five points of the history; and the views of these (console listing, web
page, chart).

- `src/` is the library, verified with Verus: the statistics (`stats`,
  `tally`, `languages`), the cache records (`csv_output`, `oid`), the data
  of the views (`view`, `templates`), the per-commit values and progress
  line (`diff`), and the laws that hold of them (`laws`).
- `app/` is the program around it: it reads the repository with `git2`,
  reads and writes the cache `data.csv`, and prints or shows the results.
