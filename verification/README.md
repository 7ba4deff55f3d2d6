# portspy

Find out which process holds a port, or list every port that is listening.

The library under `src/` holds the logic, with contracts proved by Verus:

- `types` — protocols, TCP states, findings and list entries, and their names;
- `text` — the text operations the parsers and formatters rest on (trimming,
  splitting, digits, hex), stated over `Seq<char>`;
- `lsof` — parsing `lsof -i -P -n` output into rows;
- `procnet` — parsing the `/proc/net/{tcp,tcp6,udp,udp6}` tables, their
  hex-encoded addresses, and the `socket:[inode]` links of `/proc/<pid>/fd`;
- `process` — looking a pid up in a snapshot of the process table;
- `inspect` — who uses a port, and the sorted list of listening ports;
- `listing` — the stable sort of the list by port, protocol and pid;
- `calendar` — UTC dates and durations as the tool prints them;
- `display` — column widths, totals and the detail lines of one finding.

`app/` is the command-line program around it: argument parsing, running
`lsof` or reading `/proc`, reading the process table, the clock, colours,
printing, JSON output (`--json`) and signalling the processes on a port
(`--kill`).
