# ccstat

Counts the lines that a coding assistant wrote (`Write` tool calls), edited
(`Edit` tool calls) and replied (text) in its JSONL session logs, and shows
them per project or per session.

- `src/` is the library, verified with Verus:
  - `text`: display widths, padding, truncation, trimming, line counts,
    the order of strings;
  - `json`: a plain model of JSON values and the `serde_json` call that
    parses a log line into it;
  - `parser`: which records of a log count and what they add;
  - `stats`: line counts, project names, per-file totals, dates;
  - `keyed`, `sorting`: string-keyed maps and the stable orderings;
  - `collect`: grouping all logs into projects and sessions;
  - `display`: the lines of the summary table and of the session listing.
- `app/` reads the log directories, hands their lines to the library and
  prints what it renders.
- `tests/` runs the library on concrete logs and tables.
