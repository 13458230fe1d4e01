# liclone

The verified core of LiClone, a Windows front end for rclone: it mounts
cloud storage as a drive, lists files that still need to upload, clears the
VFS cache safely and edits rclone remotes.

`src/` is the library, proved with Verus. Each module states its behaviour in
`requires`/`ensures` contracts over spec functions, and the properties that
span several calls are public `law_*` proof functions:

- `parse`: rclone command lines (splitting, quoting, flags, remote-control
  address).
- `mounts`: mount profiles, the command a profile runs, remote-control port
  assignment, the double-mount check, the cache size suggestion.
- `schedule`: the bandwidth timetable and the rate in force.
- `history`: the upload history (capped, without repeats).
- `configedit`, `wizard`: the rclone runs that create, change and delete
  remotes; backends and remotes read from rclone's JSON.
- `cache`, `purge`: the cache report, and which cached files a clear may
  delete (never one whose upload is pending).
- `transfers`, `discover`, `rclone`, `rc`, `setup`, `memo`: pending uploads,
  running rclone processes, the rclone binary, remote-control URLs, first-run
  setup and timed caches.
- `text`, `json`, `order`: strings, JSON as parsed by `serde_json`, and
  stable orderings.

`app/` is the program around it: files, processes, the network and the
window. `tests/` runs the library on concrete values.
