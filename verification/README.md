# resource_node

A small peer-to-peer file distribution system: a tracker that registers
announced files and the peers that seed them, and nodes that index, announce,
serve and download files block by block.

- `src/` is the verified library. The tracker's registry (`tracker`), the
  node's local index (`local_files`, `blocks`, `announce`), download planning
  (`download`, `transfer`), the messages exchanged with the tracker (`dto`,
  `tracker_dto`, `tracker_client`), the shell and runtime decisions
  (`node_shell`, `runtime`, `signal`) and the text helpers (`text`,
  `display`, `digest`, `random_id`) carry contracts proved by Verus.
- `app/` is the program around it: the command line, the HTTP servers and
  clients, file system access, the terminal view and the task plumbing.
- `tests/` runs the library on concrete values.
