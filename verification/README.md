# topo

`topo` maps where a pattern occurs in the Git-tracked files of a repository:
it writes a JSON report of the matching files and a Mermaid diagram of them,
correlates two such reports (so that files renamed along with the pattern
pair up), and serves a report to a local browser.

The library under `src/` holds the logic, each function with a contract
proved by Verus:

- `select`, `search`, `pattern`, `exclusions`: which files a map holds,
  ripgrep's output and batches, the files whose names match the pattern,
  and the files that Git ignores or `.topoignore` rules exclude;
- `cli`, `display`, `paths`: the command line, the workspace configuration,
  progress lines, numbers and paths as shown;
- `mermaid`: the diagram, with a subgraph per directory that holds files;
- `normalize`, `ranges`, `lcs`, `diff`, `regions`, `correlation`, `compat`:
  correlating two reports, with the matched text replaced by a sentinel;
- `viewer`, `page`, `highlight`: which reports the viewer shows, the page,
  requests, and the source lines highlighted by `syntect`;
- `text`, `order`, `model`: strings, ordering and the report types.

`app/` is the program around it: processes, files, the network, and the
report's JSON and TOML.
