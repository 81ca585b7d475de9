# jardedupli

Merges the jars of new builds into a deployed `lib` directory so that each
artifact (`groupId:artifactId`) is deployed once.

- `src/` is the library, verified with Verus:
  - `text` — characters, splitting, trimming, lines, ordering of texts;
  - `maven_coordinate` — the coordinates record, its text form, reading
    `pom.properties`, and the coordinates of a jar from its records or name;
  - `merge` — the merge by key under a whitelist and a strategy;
    `handler` — the earlier merge rule that consults the whitelist only on a
    version conflict; `merged_jars` — the result, ordered by key;
  - `lock`, `deploy` — the decisions of the lock file and of the copy run;
  - `merge_laws`, `coordinate_laws` — properties proved of every input.
- `app/` is the command-line program: arguments, file system, jar reading,
  JSON, the lock file.
- `tests/` runs the library on concrete inputs.
